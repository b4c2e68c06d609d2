//! Propositional formulas, their mathematical model and their meaning.

use vstd::prelude::*;

use crate::models::lists::lemma_in_joined;

verus! {

/// The mathematical model of a formula: what a [`Formula`] is, as a value.
pub enum Prop {
    Atom(Seq<char>),
    Not(Box<Prop>),
    And(Box<Prop>, Box<Prop>),
    Or(Box<Prop>, Box<Prop>),
    Implies(Box<Prop>, Box<Prop>),
    Biconditional(Box<Prop>, Box<Prop>),
    Contradiction,
}

/// A propositional formula.
#[derive(Debug, Eq, Hash)]
pub enum Formula {
    Atom(String),
    Not(Box<Formula>),
    And(Box<Formula>, Box<Formula>),
    Or(Box<Formula>, Box<Formula>),
    Implies(Box<Formula>, Box<Formula>),
    Biconditional(Box<Formula>, Box<Formula>),
    Contradiction,
}

/// The model of a formula.
pub open spec fn model(f: Formula) -> Prop
    decreases f,
{
    match f {
        Formula::Atom(name) => Prop::Atom(name@),
        Formula::Not(a) => Prop::Not(Box::new(model(*a))),
        Formula::And(a, b) => Prop::And(Box::new(model(*a)), Box::new(model(*b))),
        Formula::Or(a, b) => Prop::Or(Box::new(model(*a)), Box::new(model(*b))),
        Formula::Implies(a, b) => Prop::Implies(Box::new(model(*a)), Box::new(model(*b))),
        Formula::Biconditional(a, b) => Prop::Biconditional(
            Box::new(model(*a)),
            Box::new(model(*b)),
        ),
        Formula::Contradiction => Prop::Contradiction,
    }
}

impl View for Formula {
    type V = Prop;

    open spec fn view(&self) -> Prop {
        model(*self)
    }
}

impl Clone for Formula {
    fn clone(&self) -> (r: Formula)
        ensures
            r@ == self@,
        decreases self,
    {
        match self {
            Formula::Atom(name) => Formula::Atom(name.clone()),
            Formula::Not(a) => Formula::Not(Box::new((&**a).clone())),
            Formula::And(a, b) => Formula::And(Box::new((&**a).clone()), Box::new((&**b).clone())),
            Formula::Or(a, b) => Formula::Or(Box::new((&**a).clone()), Box::new((&**b).clone())),
            Formula::Implies(a, b) => Formula::Implies(
                Box::new((&**a).clone()),
                Box::new((&**b).clone()),
            ),
            Formula::Biconditional(a, b) => Formula::Biconditional(
                Box::new((&**a).clone()),
                Box::new((&**b).clone()),
            ),
            Formula::Contradiction => Formula::Contradiction,
        }
    }
}

impl vstd::std_specs::cmp::PartialEqSpecImpl for Formula {
    open spec fn obeys_eq_spec() -> bool {
        true
    }

    open spec fn eq_spec(&self, other: &Formula) -> bool {
        self@ == other@
    }
}

impl PartialEq for Formula {
    fn eq(&self, other: &Formula) -> (r: bool) {
        self.same(other)
    }
}

impl Formula {
    /// Structural equality.
    pub fn same(&self, other: &Formula) -> (r: bool)
        ensures
            r == (self@ == other@),
        decreases self,
    {
        match (self, other) {
            (Formula::Atom(a), Formula::Atom(b)) => *a == *b,
            (Formula::Not(a), Formula::Not(b)) => a.same(b),
            (Formula::And(a, b), Formula::And(c, d)) => a.same(c) && b.same(d),
            (Formula::Or(a, b), Formula::Or(c, d)) => a.same(c) && b.same(d),
            (Formula::Implies(a, b), Formula::Implies(c, d)) => a.same(c) && b.same(d),
            (Formula::Biconditional(a, b), Formula::Biconditional(c, d)) => a.same(c) && b.same(d),
            (Formula::Contradiction, Formula::Contradiction) => true,
            _ => false,
        }
    }
}

/// `~a`, as a value.
pub open spec fn p_not(a: Prop) -> Prop {
    Prop::Not(Box::new(a))
}

/// `a . b`, as a value.
pub open spec fn p_and(a: Prop, b: Prop) -> Prop {
    Prop::And(Box::new(a), Box::new(b))
}

/// `a v b`, as a value.
pub open spec fn p_or(a: Prop, b: Prop) -> Prop {
    Prop::Or(Box::new(a), Box::new(b))
}

/// `a > b`, as a value.
pub open spec fn p_implies(a: Prop, b: Prop) -> Prop {
    Prop::Implies(Box::new(a), Box::new(b))
}

/// `a <-> b`, as a value.
pub open spec fn p_iff(a: Prop, b: Prop) -> Prop {
    Prop::Biconditional(Box::new(a), Box::new(b))
}

/// The models of a sequence of formulas.
pub open spec fn views(s: Seq<Formula>) -> Seq<Prop> {
    Seq::new(s.len(), |i: int| s[i]@)
}

/// Pushing commutes with taking models.
pub broadcast proof fn lemma_views_push(s: Seq<Formula>, f: Formula)
    ensures
        #[trigger] views(s.push(f)) == views(s).push(f@),
{
    assert(views(s.push(f)) =~= views(s).push(f@));
}

/// Concatenation commutes with taking models.
pub broadcast proof fn lemma_views_add(s: Seq<Formula>, t: Seq<Formula>)
    ensures
        #[trigger] views(s + t) == views(s) + views(t),
{
    assert(views(s + t) =~= views(s) + views(t));
}

/// `~a`.
pub fn not_of(a: &Formula) -> (r: Formula)
    ensures
        r@ == p_not(a@),
{
    Formula::Not(Box::new(a.clone()))
}

/// `a . b`.
pub fn and_of(a: &Formula, b: &Formula) -> (r: Formula)
    ensures
        r@ == p_and(a@, b@),
{
    Formula::And(Box::new(a.clone()), Box::new(b.clone()))
}

/// `a v b`.
pub fn or_of(a: &Formula, b: &Formula) -> (r: Formula)
    ensures
        r@ == p_or(a@, b@),
{
    Formula::Or(Box::new(a.clone()), Box::new(b.clone()))
}

/// `a > b`.
pub fn implies_of(a: &Formula, b: &Formula) -> (r: Formula)
    ensures
        r@ == p_implies(a@, b@),
{
    Formula::Implies(Box::new(a.clone()), Box::new(b.clone()))
}

/// `a <-> b`.
pub fn iff_of(a: &Formula, b: &Formula) -> (r: Formula)
    ensures
        r@ == p_iff(a@, b@),
{
    Formula::Biconditional(Box::new(a.clone()), Box::new(b.clone()))
}

/// A copy of a list of formulas.
pub fn copy_formulas(s: &[Formula]) -> (r: Vec<Formula>)
    ensures
        views(r@) == views(s@),
{
    let mut r: Vec<Formula> = Vec::new();
    let mut i: usize = 0;
    while i < s.len()
        invariant
            i <= s@.len(),
            views(r@) == views(s@).take(i as int),
        decreases s@.len() - i,
    {
        broadcast use lemma_views_push;

        r.push(s[i].clone());
        assert(views(s@).take(i as int + 1) =~= views(s@).take(i as int).push(s@[i as int]@));
        i = i + 1;
    }
    assert(views(s@).take(s@.len() as int) =~= views(s@));
    r
}

/// The first position of `p` in `s` at or after `from`.
pub open spec fn first_index_from(s: Seq<Prop>, p: Prop, from: int) -> Option<int>
    decreases s.len() - from,
{
    if from < 0 || from >= s.len() {
        None
    } else if s[from] == p {
        Some(from)
    } else {
        first_index_from(s, p, from + 1)
    }
}

/// The first position of `p` in `s`.
pub open spec fn first_index(s: Seq<Prop>, p: Prop) -> Option<int> {
    first_index_from(s, p, 0)
}

/// A first position is a position of the formula; there is none exactly where the
/// formula does not occur.
pub proof fn lemma_first_index_from(s: Seq<Prop>, p: Prop, from: int)
    requires
        0 <= from,
    ensures
        first_index_from(s, p, from) matches Some(i) ==> from <= i < s.len() && s[i] == p
            && forall|j: int| from <= j < i ==> s[j] != p,
        first_index_from(s, p, from) is None <==> forall|j: int| from <= j < s.len() ==> s[j] != p,
    decreases s.len() - from,
{
    if from < s.len() && s[from] != p {
        lemma_first_index_from(s, p, from + 1);
    }
}

/// [`lemma_first_index_from`] for a whole sequence.
pub proof fn lemma_first_index(s: Seq<Prop>, p: Prop)
    ensures
        first_index(s, p) matches Some(i) ==> 0 <= i < s.len() && s[i] == p && forall|j: int|
            0 <= j < i ==> s[j] != p,
        first_index(s, p) is Some <==> s.contains(p),
{
    lemma_first_index_from(s, p, 0);
}

/// The first position of `f` in `s`.
pub fn position(s: &[Formula], f: &Formula) -> (r: Option<usize>)
    ensures
        r is Some <==> first_index(views(s@), f@) is Some,
        r matches Some(i) ==> first_index(views(s@), f@) == Some(i as int) && i < s@.len(),
{
    let mut i: usize = 0;
    proof {
        lemma_first_index(views(s@), f@);
    }
    while i < s.len()
        invariant
            i <= s@.len(),
            first_index(views(s@), f@) == first_index_from(views(s@), f@, i as int),
        decreases s@.len() - i,
    {
        assert(views(s@)[i as int] == s@[i as int]@);
        if s[i].same(f) {
            return Some(i);
        }
        i = i + 1;
    }
    None
}

/// Whether `f` occurs in `s`.
pub fn contains(s: &[Formula], f: &Formula) -> (r: bool)
    ensures
        r == views(s@).contains(f@),
{
    proof {
        lemma_first_index(views(s@), f@);
    }
    position(s, f).is_some()
}

/// An assignment of truth values to atom names.
pub type Valuation = spec_fn(Seq<char>) -> bool;

/// The truth value of a formula under a valuation.
pub open spec fn eval(p: Prop, v: Valuation) -> bool
    decreases p,
{
    match p {
        Prop::Atom(name) => v(name),
        Prop::Not(a) => !eval(*a, v),
        Prop::And(a, b) => eval(*a, v) && eval(*b, v),
        Prop::Or(a, b) => eval(*a, v) || eval(*b, v),
        Prop::Implies(a, b) => eval(*a, v) ==> eval(*b, v),
        Prop::Biconditional(a, b) => eval(*a, v) == eval(*b, v),
        Prop::Contradiction => false,
    }
}

/// Every formula of `s` is true under `v`.
pub open spec fn all_true(s: Seq<Prop>, v: Valuation) -> bool {
    forall|i: int| 0 <= i < s.len() ==> eval(#[trigger] s[i], v)
}

/// Some valuation makes every formula of `s` true.
pub open spec fn satisfiable(s: Seq<Prop>) -> bool {
    exists|v: Valuation| all_true(s, v)
}

/// Every valuation that makes all of `s` true makes `p` true.
pub open spec fn entails(s: Seq<Prop>, p: Prop) -> bool {
    forall|v: Valuation| #[trigger] all_true(s, v) ==> eval(p, v)
}

/// Every valuation makes `p` true.
pub open spec fn tautology(p: Prop) -> bool {
    forall|v: Valuation| #[trigger] eval(p, v)
}

/// `p` and `q` have the same truth value under every valuation.
pub open spec fn equivalent(p: Prop, q: Prop) -> bool {
    forall|v: Valuation| #[trigger] eval(p, v) == eval(q, v)
}

/// The atom names of a formula, in order of first occurrence from the left.
pub open spec fn atom_names(p: Prop) -> Seq<Seq<char>>
    decreases p,
{
    match p {
        Prop::Atom(name) => seq![name],
        Prop::Not(a) => atom_names(*a),
        Prop::And(a, b) => merge_names(atom_names(*a), atom_names(*b)),
        Prop::Or(a, b) => merge_names(atom_names(*a), atom_names(*b)),
        Prop::Implies(a, b) => merge_names(atom_names(*a), atom_names(*b)),
        Prop::Biconditional(a, b) => merge_names(atom_names(*a), atom_names(*b)),
        Prop::Contradiction => seq![],
    }
}

/// `a` followed by the names of `b` that are not in it.
pub open spec fn merge_names(a: Seq<Seq<char>>, b: Seq<Seq<char>>) -> Seq<Seq<char>>
    decreases b.len(),
{
    if b.len() == 0 {
        a
    } else {
        let m = merge_names(a, b.drop_last());
        if m.contains(b.last()) {
            m
        } else {
            m.push(b.last())
        }
    }
}

/// The atom names of all formulas of `s`, in order of first occurrence.
pub open spec fn all_names(s: Seq<Prop>) -> Seq<Seq<char>>
    decreases s.len(),
{
    if s.len() == 0 {
        seq![]
    } else {
        merge_names(all_names(s.drop_last()), atom_names(s.last()))
    }
}

/// Merging keeps exactly the names of both sides, each once.
pub proof fn lemma_merge_names(a: Seq<Seq<char>>, b: Seq<Seq<char>>)
    requires
        a.no_duplicates(),
    ensures
        merge_names(a, b).no_duplicates(),
        forall|n: Seq<char>|
            #![trigger merge_names(a, b).contains(n)]
            merge_names(a, b).contains(n) <==> (a.contains(n) || b.contains(n)),
        merge_names(a, b).len() >= a.len(),
        merge_names(a, b).take(a.len() as int) =~= a,
    decreases b.len(),
{
    if b.len() > 0 {
        let c = b.drop_last();
        let x = b.last();
        lemma_merge_names(a, c);
        let m = merge_names(a, c);
        assert(b =~= c.push(x));
        assert forall|n: Seq<char>| #![trigger merge_names(a, b).contains(n)]
            merge_names(a, b).contains(n) <==> (a.contains(n) || b.contains(n)) by {
            assert(b.contains(n) <==> (c.contains(n) || n == x)) by {
                if c.contains(n) {
                    let i = choose|i: int| 0 <= i < c.len() && c[i] == n;
                    assert(b[i] == n);
                }
                if n == x {
                    assert(b[b.len() - 1] == n);
                }
            }
            assert(m.push(x).contains(n) <==> (m.contains(n) || n == x)) by {
                if m.contains(n) {
                    let i = choose|i: int| 0 <= i < m.len() && m[i] == n;
                    assert(m.push(x)[i] == n);
                }
                assert(m.push(x)[m.len() as int] == x);
            }
            assert(m.contains(n) <==> (a.contains(n) || c.contains(n)));
        }
    } else {
        assert(a.take(a.len() as int) =~= a);
    }
}

/// The atom names of a formula occur once each.
pub proof fn lemma_atom_names(p: Prop)
    ensures
        atom_names(p).no_duplicates(),
    decreases p,
{
    match p {
        Prop::Atom(_) | Prop::Contradiction => {},
        Prop::Not(a) => lemma_atom_names(*a),
        Prop::And(a, b) | Prop::Or(a, b) | Prop::Implies(a, b) | Prop::Biconditional(a, b) => {
            lemma_atom_names(*a);
            lemma_atom_names(*b);
            lemma_merge_names(atom_names(*a), atom_names(*b));
        },
    }
}

/// The atom names of a list of formulas are those of its members, once each.
pub proof fn lemma_all_names(s: Seq<Prop>)
    ensures
        all_names(s).no_duplicates(),
        forall|i: int, n: Seq<char>|
            0 <= i < s.len() && #[trigger] atom_names(s[i]).contains(n) ==> all_names(s).contains(n),
    decreases s.len(),
{
    if s.len() > 0 {
        let t = s.drop_last();
        lemma_all_names(t);
        lemma_merge_names(all_names(t), atom_names(s.last()));
        assert forall|i: int, n: Seq<char>|
            0 <= i < s.len() && #[trigger] atom_names(s[i]).contains(n) implies all_names(
            s,
        ).contains(n) by {
            if i < t.len() {
                assert(t[i] == s[i]);
                assert(atom_names(t[i]).contains(n));
            }
        }
    }
}

/// The truth value of a formula rests on the values of its own atoms alone.
pub proof fn lemma_eval_agree(p: Prop, v: Valuation, w: Valuation)
    requires
        forall|n: Seq<char>| #[trigger] atom_names(p).contains(n) ==> v(n) == w(n),
    ensures
        eval(p, v) == eval(p, w),
    decreases p,
{
    match p {
        Prop::Atom(name) => {
            assert(atom_names(p)[0] == name);
            assert(atom_names(p).contains(name));
        },
        Prop::Not(a) => {
            assert(atom_names(p) == atom_names(*a));
            lemma_eval_agree(*a, v, w);
        },
        Prop::And(a, b) | Prop::Or(a, b) | Prop::Implies(a, b) | Prop::Biconditional(a, b) => {
            lemma_atom_names(*a);
            lemma_merge_names(atom_names(*a), atom_names(*b));
            assert forall|n: Seq<char>| #[trigger] atom_names(*a).contains(n) implies v(n) == w(
                n,
            ) by {
                assert(atom_names(p).contains(n));
            }
            assert forall|n: Seq<char>| #[trigger] atom_names(*b).contains(n) implies v(n) == w(
                n,
            ) by {
                assert(atom_names(p).contains(n));
            }
            lemma_eval_agree(*a, v, w);
            lemma_eval_agree(*b, v, w);
        },
        Prop::Contradiction => {},
    }
}

/// The models of a list of names.
pub open spec fn name_views(s: Seq<String>) -> Seq<Seq<char>> {
    Seq::new(s.len(), |i: int| s[i]@)
}

/// Whether `name` occurs in `names`.
pub fn has_name(names: &Vec<String>, name: &String) -> (r: bool)
    ensures
        r == name_views(names@).contains(name@),
{
    let mut i: usize = 0;
    while i < names.len()
        invariant
            i <= names@.len(),
            forall|j: int| 0 <= j < i ==> names@[j]@ != name@,
        decreases names@.len() - i,
    {
        if names[i] == *name {
            assert(name_views(names@)[i as int] == name@);
            return true;
        }
        i = i + 1;
    }
    assert(!name_views(names@).contains(name@)) by {
        if name_views(names@).contains(name@) {
            let j = choose|j: int|
                0 <= j < name_views(names@).len() && name_views(names@)[j] == name@;
            assert(names@[j]@ == name@);
        }
    }
    false
}

/// Appends to `names` the names of `more` that it lacks.
fn extend_names(names: &mut Vec<String>, more: &Vec<String>)
    ensures
        name_views(final(names)@) == merge_names(name_views(old(names)@), name_views(more@)),
{
    let mut i: usize = 0;
    let ghost start = name_views(names@);
    assert(name_views(more@).take(0) =~= seq![]);
    while i < more.len()
        invariant
            i <= more@.len(),
            name_views(names@) == merge_names(start, name_views(more@).take(i as int)),
        decreases more@.len() - i,
    {
        let ghost before = names@;
        let ghost t = name_views(more@).take(i as int + 1);
        assert(t.drop_last() =~= name_views(more@).take(i as int));
        assert(t.last() == more@[i as int]@);
        if !has_name(names, &more[i]) {
            names.push(more[i].clone());
            assert(name_views(names@) =~= name_views(before).push(more@[i as int]@));
        }
        i = i + 1;
    }
    assert(name_views(more@).take(more@.len() as int) =~= name_views(more@));
}

impl Formula {
    /// The atom names of the formula, in order of first occurrence from the left.
    pub fn atoms(&self) -> (r: Vec<String>)
        ensures
            name_views(r@) == atom_names(self@),
        decreases self,
    {
        match self {
            Formula::Atom(name) => {
                let mut r: Vec<String> = Vec::new();
                r.push(name.clone());
                assert(name_views(r@) =~= seq![name@]);
                r
            },
            Formula::Not(a) => a.atoms(),
            Formula::And(a, b) | Formula::Or(a, b) | Formula::Implies(a, b)
            | Formula::Biconditional(a, b) => {
                let mut r = a.atoms();
                let more = b.atoms();
                extend_names(&mut r, &more);
                r
            },
            Formula::Contradiction => {
                let r: Vec<String> = Vec::new();
                assert(name_views(r@) =~= seq![]);
                r
            },
        }
    }
}

/// The atom names of all formulas of `s`, in order of first occurrence.
pub fn atom_universe(s: &[Formula]) -> (r: Vec<String>)
    ensures
        name_views(r@) == all_names(views(s@)),
{
    let mut r: Vec<String> = Vec::new();
    let mut i: usize = 0;
    assert(name_views(r@) =~= seq![]);
    assert(views(s@).take(0) =~= seq![]);
    while i < s.len()
        invariant
            i <= s@.len(),
            name_views(r@) == all_names(views(s@).take(i as int)),
        decreases s@.len() - i,
    {
        let more = s[i].atoms();
        extend_names(&mut r, &more);
        assert(views(s@).take(i as int + 1).drop_last() =~= views(s@).take(i as int));
        assert(views(s@).take(i as int + 1).last() == s@[i as int]@);
        i = i + 1;
    }
    assert(views(s@).take(s@.len() as int) =~= views(s@));
    r
}

/// A formula and all its subformulas, the whole before its parts, left before right.
pub open spec fn subformula_seq(p: Prop) -> Seq<Prop>
    decreases p,
{
    match p {
        Prop::Atom(_) | Prop::Contradiction => seq![p],
        Prop::Not(a) => seq![p] + subformula_seq(*a),
        Prop::And(a, b) | Prop::Or(a, b) | Prop::Implies(a, b) | Prop::Biconditional(a, b) => seq![
            p,
        ] + subformula_seq(*a) + subformula_seq(*b),
    }
}

/// Whether `x` is `p` or a part of it.
pub open spec fn is_part(x: Prop, p: Prop) -> bool
    decreases p,
{
    x == p || match p {
        Prop::Atom(_) | Prop::Contradiction => false,
        Prop::Not(a) => is_part(x, *a),
        Prop::And(a, b) => is_part(x, *a) || is_part(x, *b),
        Prop::Or(a, b) => is_part(x, *a) || is_part(x, *b),
        Prop::Implies(a, b) => is_part(x, *a) || is_part(x, *b),
        Prop::Biconditional(a, b) => is_part(x, *a) || is_part(x, *b),
    }
}

/// The atom names of a formula are those of the atoms among its parts, each once.
pub proof fn law_atom_names(p: Prop, name: Seq<char>)
    ensures
        atom_names(p).contains(name) <==> is_part(Prop::Atom(name), p),
        atom_names(p).no_duplicates(),
    decreases p,
{
    match p {
        Prop::Atom(n) => {
            assert(atom_names(p)[0] == n);
        },
        Prop::Contradiction => {},
        Prop::Not(a) => law_atom_names(*a, name),
        Prop::And(a, b) | Prop::Or(a, b) | Prop::Implies(a, b) | Prop::Biconditional(a, b) => {
            law_atom_names(*a, name);
            law_atom_names(*b, name);
            lemma_merge_names(atom_names(*a), atom_names(*b));
            assert(merge_names(atom_names(*a), atom_names(*b)).contains(name) <==> atom_names(
                *a,
            ).contains(name) || atom_names(*b).contains(name));
        },
    }
}

/// Names come in the order in which they are first met from the left: those of the left
/// side, and then those of the right side that are new.
pub proof fn law_atom_names_in_order(a: Prop, b: Prop)
    ensures
        ({
            let both = atom_names(a) + atom_names(b).filter(
                |n: Seq<char>| !atom_names(a).contains(n),
            );
            &&& atom_names(p_and(a, b)) == both
            &&& atom_names(p_or(a, b)) == both
            &&& atom_names(p_implies(a, b)) == both
            &&& atom_names(p_iff(a, b)) == both
            &&& atom_names(p_not(a)) == atom_names(a)
        }),
{
    law_atom_names(a, seq![]);
    law_atom_names(b, seq![]);
    lemma_merge_filters(atom_names(a), atom_names(b));
}

/// Merging appends the names that are new.
proof fn lemma_merge_filters(a: Seq<Seq<char>>, b: Seq<Seq<char>>)
    requires
        a.no_duplicates(),
        b.no_duplicates(),
    ensures
        merge_names(a, b) == a + b.filter(|n: Seq<char>| !a.contains(n)),
    decreases b.len(),
{
    reveal(Seq::filter);
    let new = |n: Seq<char>| !a.contains(n);
    if b.len() == 0 {
        assert(a + b.filter(new) =~= a);
    } else {
        let t = b.drop_last();
        assert forall|i: int, j: int| 0 <= i < t.len() && 0 <= j < t.len() && i != j implies t[i]
            != t[j] by {
            assert(t[i] == b[i] && t[j] == b[j]);
        }
        lemma_merge_filters(a, t);
        lemma_merge_names(a, t);
        assert(!t.contains(b.last())) by {
            if t.contains(b.last()) {
                let i = choose|i: int| 0 <= i < t.len() && t[i] == b.last();
                assert(b[i] == b[b.len() - 1]);
            }
        }
        assert(merge_names(a, t).contains(b.last()) <==> a.contains(b.last()));
        assert(merge_names(a, b) =~= a + b.filter(new));
    }
}

/// The atom names of some formulas are those of each of them, each once.
pub proof fn law_all_names(s: Seq<Prop>, name: Seq<char>)
    ensures
        all_names(s).contains(name) <==> exists|i: int|
            0 <= i < s.len() && is_part(Prop::Atom(name), #[trigger] s[i]),
        all_names(s).no_duplicates(),
    decreases s.len(),
{
    if s.len() > 0 {
        let t = s.drop_last();
        law_all_names(t, name);
        law_atom_names(s.last(), name);
        lemma_merge_names(all_names(t), atom_names(s.last()));
        assert(all_names(s).contains(name) <==> all_names(t).contains(name) || atom_names(
            s.last(),
        ).contains(name));
        if all_names(t).contains(name) {
            let i = choose|i: int|
                0 <= i < t.len() && is_part(Prop::Atom(name), #[trigger] t[i]);
            assert(is_part(Prop::Atom(name), s[i]));
        }
        if atom_names(s.last()).contains(name) {
            assert(is_part(Prop::Atom(name), s[s.len() - 1]));
        }
        if exists|i: int| 0 <= i < s.len() && is_part(Prop::Atom(name), #[trigger] s[i]) {
            let i = choose|i: int|
                0 <= i < s.len() && is_part(Prop::Atom(name), #[trigger] s[i]);
            if i < t.len() {
                assert(is_part(Prop::Atom(name), t[i]));
            }
        }
    }
}

/// The whole comes first among the subformulas, then all that is in its left side, then all
/// that is in its right side.
pub proof fn law_subformulas_in_order(p: Prop, a: Prop, b: Prop)
    requires
        p == p_and(a, b) || p == p_or(a, b) || p == p_implies(a, b) || p == p_iff(a, b),
    ensures
        subformula_seq(p)[0] == p,
        subformula_seq(p).drop_first() == subformula_seq(a) + subformula_seq(b),
        subformula_seq(p_not(p))[0] == p_not(p),
        subformula_seq(p_not(p)).drop_first() == subformula_seq(p),
{
    assert(subformula_seq(p).drop_first() =~= subformula_seq(a) + subformula_seq(b));
    assert(subformula_seq(p_not(p)).drop_first() =~= subformula_seq(p));
}

/// The subformulas of a formula are the formula and its parts, at whatever depth.
pub proof fn law_subformulas(p: Prop, x: Prop)
    ensures
        subformula_seq(p).contains(x) <==> is_part(x, p),
    decreases p,
{
    assert(seq![p].contains(x) <==> x == p) by {
        assert(seq![p][0] == p);
    }
    match p {
        Prop::Atom(_) | Prop::Contradiction => {},
        Prop::Not(a) => {
            law_subformulas(*a, x);
            lemma_in_joined(seq![p], subformula_seq(*a), x);
        },
        Prop::And(a, b) | Prop::Or(a, b) | Prop::Implies(a, b) | Prop::Biconditional(a, b) => {
            law_subformulas(*a, x);
            law_subformulas(*b, x);
            lemma_in_joined(seq![p], subformula_seq(*a), x);
            lemma_in_joined(seq![p] + subformula_seq(*a), subformula_seq(*b), x);
        },
    }
}

impl Formula {
    /// Appends the formula and all its subformulas to `out`.
    fn collect_subformulas(&self, out: &mut Vec<Formula>)
        ensures
            views(final(out)@) == views(old(out)@) + subformula_seq(self@),
        decreases self,
    {
        broadcast use lemma_views_push;

        let ghost start = views(out@);
        out.push(self.clone());
        match self {
            Formula::Atom(_) | Formula::Contradiction => {},
            Formula::Not(a) => {
                a.collect_subformulas(out);
            },
            Formula::And(a, b) | Formula::Or(a, b) | Formula::Implies(a, b)
            | Formula::Biconditional(a, b) => {
                a.collect_subformulas(out);
                b.collect_subformulas(out);
            },
        }
        assert(views(out@) =~= start + subformula_seq(self@));
    }

    /// The formula and all its subformulas, the whole before its parts, left before
    /// right.
    pub fn subformulas(&self) -> (r: Vec<Formula>)
        ensures
            views(r@) == subformula_seq(self@),
    {
        let mut r: Vec<Formula> = Vec::new();
        self.collect_subformulas(&mut r);
        assert(views(r@) =~= subformula_seq(self@));
        r
    }
}

} // verus!
