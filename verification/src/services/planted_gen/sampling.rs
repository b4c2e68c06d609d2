//! Sampling atoms, small formulas and premises.

use vstd::prelude::*;

use crate::models::formula::{
    all_true, contains, eval, lemma_views_push, name_views, not_of, p_and, p_iff, p_implies, p_not,
    p_or, satisfiable, views,
};
use crate::models::formula::{Formula, Prop, Valuation};
use crate::models::lists::{lemma_in_joined, lemma_in_pushed};
use crate::models::numbers::{append_decimal, decimal, digits_value, law_decimal};
use crate::models::text::{bracket, bracketed};
use crate::services::dice::{coin_drawn, count_drawn, index_drawn, short_drawn_between, Dice};
use crate::services::planted_gen::candidate::PlantSpec;
use crate::services::planted_gen::growth::fits;
use crate::services::planted_gen::scratch::within_len;
use crate::services::truth_table::is_satisfiable_dynamic;

verus! {

/// How many formulas [`sample_premises`] draws for one more premise before it goes through
/// the small formulas in order.
pub const SAMPLE_TRIES: u64 = 100_000;

/// The letter with a number, in the order in which the atoms take them.
pub open spec fn letter(i: int) -> Seq<char> {
    "PQRSTABCDEFGHIJKLMNOUVWXYZ"@.subrange(i, i + 1)
}

/// The name of an atom: a letter, from the second round on with a number.
pub open spec fn atom_name(i: int) -> Seq<char> {
    if i < 26 {
        letter(i)
    } else {
        letter(i % 26) + decimal((i / 26) as nat)
    }
}

/// The names of the first `n` atoms.
pub open spec fn pool(n: nat) -> Seq<Seq<char>> {
    Seq::new(n, |i: int| atom_name(i))
}

/// The letter with a number.
fn letter_text(i: u8) -> (r: &'static str)
    requires
        i < 26,
    ensures
        r@ == letter(i as int),
{
    proof {
        reveal_strlit("PQRSTABCDEFGHIJKLMNOUVWXYZ");
    }
    "PQRSTABCDEFGHIJKLMNOUVWXYZ".substring_char(i as usize, i as usize + 1)
}

/// The names of the first `n` atoms: `P` to `T` first, then `A`, `B`, `C` and so on through
/// the other letters, then `P1` and so on.
pub fn build_atom_pool(n: u8) -> (r: Vec<String>)
    ensures
        name_views(r@) == pool(n as nat),
{
    let mut r: Vec<String> = Vec::new();
    let mut i: u8 = 0;
    while i < n
        invariant
            i <= n,
            name_views(r@) == pool(i as nat),
        decreases n - i,
    {
        let mut name = letter_text(i % 26).to_owned();
        if i >= 26 {
            append_decimal(&mut name, (i / 26) as usize);
        }
        assert(name@ =~= atom_name(i as int));
        let ghost before = r@;
        r.push(name);
        assert(name_views(r@) =~= name_views(before).push(atom_name(i as int)));
        assert(pool(i as nat + 1) =~= pool(i as nat).push(atom_name(i as int)));
        i = i + 1;
    }
    r
}

/// An atom of the pool or its negation, and what the dice hold afterwards.
pub open spec fn literal_drawn(atoms: Seq<Seq<char>>, held: Seq<u32>) -> (Prop, Seq<u32>) {
    let (i, h1) = index_drawn(held, atoms.len() as int);
    let (negated, h2) = coin_drawn(h1);
    let atom = Prop::Atom(atoms[i]);
    (if negated {
        p_not(atom)
    } else {
        atom
    }, h2)
}

/// Two formulas joined by the connective with a number.
pub open spec fn joined(n: u32, left: Prop, right: Prop) -> Prop {
    if n == 0 {
        p_and(left, right)
    } else if n == 1 {
        p_or(left, right)
    } else if n == 2 {
        p_implies(left, right)
    } else {
        p_iff(left, right)
    }
}

/// A literal or two literals joined by a connective, and what the dice hold afterwards.
pub open spec fn small_drawn(atoms: Seq<Seq<char>>, held: Seq<u32>) -> (Prop, Seq<u32>) {
    let (alone, h1) = coin_drawn(held);
    if alone {
        literal_drawn(atoms, h1)
    } else {
        let (left, h2) = literal_drawn(atoms, h1);
        let (right, h3) = literal_drawn(atoms, h2);
        let (n, h4) = short_drawn_between(h3, 0, 3);
        (joined(n, left, right), h4)
    }
}

/// Whether a formula may join the premises `kept`: it is short enough, new, and
/// consistent with them.
pub open spec fn may_join(kept: Seq<Prop>, f: Prop, max: nat) -> bool {
    fits(f, max) && !kept.contains(f) && satisfiable(kept.push(f))
}

/// Whether a formula is an atom of the pool or its negation.
pub open spec fn is_literal(atoms: Seq<Seq<char>>, p: Prop) -> bool {
    match p {
        Prop::Atom(name) => atoms.contains(name),
        Prop::Not(a) => match *a {
            Prop::Atom(name) => atoms.contains(name),
            _ => false,
        },
        _ => false,
    }
}

/// Whether a formula is a literal over the pool or two literals joined by a connective.
pub open spec fn is_small(atoms: Seq<Seq<char>>, p: Prop) -> bool {
    ||| is_literal(atoms, p)
    ||| exists|n: u32, left: Prop, right: Prop|
        p == #[trigger] joined(n, left, right) && is_literal(atoms, left) && is_literal(
            atoms,
            right,
        )
}

/// The literals over the first `n` names of the pool, in order.
pub open spec fn literals_upto(atoms: Seq<Seq<char>>, n: int) -> Seq<Prop>
    decreases n,
{
    if n <= 0 {
        seq![]
    } else {
        let atom = Prop::Atom(atoms[n - 1]);
        literals_upto(atoms, n - 1).push(atom).push(p_not(atom))
    }
}

/// `left` joined with each of the first `n` formulas of `lits` by each connective, in
/// order.
pub open spec fn row(left: Prop, lits: Seq<Prop>, n: int) -> Seq<Prop>
    decreases n,
{
    if n <= 0 {
        seq![]
    } else {
        let right = lits[n - 1];
        row(left, lits, n - 1) + seq![
            joined(0, left, right),
            joined(1, left, right),
            joined(2, left, right),
            joined(3, left, right),
        ]
    }
}

/// The first `n` formulas of `lits` joined with each of `lits`, in order.
pub open spec fn rows(lits: Seq<Prop>, n: int) -> Seq<Prop>
    decreases n,
{
    if n <= 0 {
        seq![]
    } else {
        rows(lits, n - 1) + row(lits[n - 1], lits, lits.len() as int)
    }
}

/// The small formulas over the pool, in order.
pub open spec fn smalls(atoms: Seq<Seq<char>>) -> Seq<Prop> {
    let lits = literals_upto(atoms, atoms.len() as int);
    lits + rows(lits, lits.len() as int)
}

/// The first formula of `s` that may join the premises `kept`.
pub open spec fn first_joining(kept: Seq<Prop>, s: Seq<Prop>, max: nat) -> Option<Prop>
    decreases s.len(),
{
    if s.len() == 0 {
        None
    } else {
        match first_joining(kept, s.drop_last(), max) {
            Some(f) => Some(f),
            None => if may_join(kept, s.last(), max) {
                Some(s.last())
            } else {
                None
            },
        }
    }
}

/// The premises `kept` and more, up to `n` of them: each formula that is drawn is taken
/// if it may join those before. After `tries` formulas in a row that may not, the first
/// small formula that may is taken; where none may, nothing is left to take.
pub open spec fn premises_drawn(
    atoms: Seq<Seq<char>>,
    max: nat,
    n: int,
    kept: Seq<Prop>,
    tries: nat,
    held: Seq<u32>,
) -> (Seq<Prop>, Seq<u32>)
    decreases n - kept.len(), tries,
{
    if kept.len() >= n {
        (kept, held)
    } else if tries == 0 {
        match first_joining(kept, smalls(atoms), max) {
            Some(f) => premises_drawn(
                atoms,
                max,
                n,
                kept.push(f),
                SAMPLE_TRIES as nat,
                held,
            ),
            None => (kept, held),
        }
    } else {
        let (f, h1) = small_drawn(atoms, held);
        if may_join(kept, f, max) {
            premises_drawn(atoms, max, n, kept.push(f), SAMPLE_TRIES as nat, h1)
        } else {
            premises_drawn(atoms, max, n, kept, (tries - 1) as nat, h1)
        }
    }
}

/// From two to `most` premises of at most `max` characters each, and what the dice hold
/// afterwards.
pub open spec fn sampled(atoms: Seq<Seq<char>>, max: nat, most: int, held: Seq<u32>) -> (
    Seq<Prop>,
    Seq<u32>,
) {
    let (n, h1) = count_drawn(held, 2, most);
    premises_drawn(atoms, max, n, seq![], SAMPLE_TRIES as nat, h1)
}

/// Whether some formulas are premises as they should be: small, short, different and
/// consistent.
pub open spec fn are_premises(atoms: Seq<Seq<char>>, max: nat, s: Seq<Prop>) -> bool {
    &&& are_compatible(max, s)
    &&& forall|i: int| 0 <= i < s.len() ==> is_small(atoms, #[trigger] s[i])
}

/// Whether some formulas are short, different and consistent.
pub open spec fn are_compatible(max: nat, s: Seq<Prop>) -> bool {
    &&& satisfiable(s)
    &&& s.no_duplicates()
    &&& forall|i: int| 0 <= i < s.len() ==> fits(#[trigger] s[i], max)
}

/// Whether two small formulas that are short enough are consistent with each other.
pub open spec fn two_fit(atoms: Seq<Seq<char>>, max: nat) -> bool {
    exists|f: Prop, g: Prop|
        #[trigger] is_small(atoms, f) && #[trigger] is_small(atoms, g) && f != g && fits(f, max)
            && fits(g, max) && satisfiable(seq![f, g])
}

/// What is found may join and was there; where nothing is found, nothing may join.
proof fn lemma_first_joining(kept: Seq<Prop>, s: Seq<Prop>, max: nat)
    ensures
        match first_joining(kept, s, max) {
            Some(f) => may_join(kept, f, max) && s.contains(f),
            None => forall|f: Prop| #[trigger] s.contains(f) ==> !may_join(kept, f, max),
        },
    decreases s.len(),
{
    if s.len() > 0 {
        let t = s.drop_last();
        lemma_first_joining(kept, t, max);
        match first_joining(kept, t, max) {
            Some(f) => {
                let i = choose|i: int| 0 <= i < t.len() && t[i] == f;
                assert(s[i] == f);
            },
            None => {
                assert(s[s.len() - 1] == s.last());
                assert forall|f: Prop| #[trigger] s.contains(f) && !may_join(
                    kept,
                    s.last(),
                    max,
                ) implies !may_join(kept, f, max) by {
                    let i = choose|i: int| 0 <= i < s.len() && s[i] == f;
                    if i < t.len() {
                        assert(t[i] == f);
                        assert(t.contains(f));
                    }
                }
            },
        }
    }
}

/// The first of two lists that has one that may join decides.
proof fn lemma_joining_in_turn(kept: Seq<Prop>, a: Seq<Prop>, b: Seq<Prop>, max: nat)
    ensures
        first_joining(kept, a + b, max) == match first_joining(kept, a, max) {
            Some(f) => Some(f),
            None => first_joining(kept, b, max),
        },
    decreases b.len(),
{
    if b.len() == 0 {
        assert(a + b =~= a);
    } else {
        lemma_joining_in_turn(kept, a, b.drop_last(), max);
        assert((a + b).drop_last() =~= a + b.drop_last());
        assert((a + b).last() == b.last());
    }
}

/// The literals in order are those over the names.
proof fn lemma_literals(atoms: Seq<Seq<char>>, n: int, p: Prop)
    requires
        0 <= n <= atoms.len(),
    ensures
        literals_upto(atoms, n).contains(p) <==> is_literal(atoms.take(n), p),
    decreases n,
{
    let all = literals_upto(atoms, n);
    if n == 0 {
        assert(all.len() == 0);
    } else {
        let before = literals_upto(atoms, n - 1);
        let atom = Prop::Atom(atoms[n - 1]);
        lemma_literals(atoms, n - 1, p);
        lemma_in_pushed(before, atom, p);
        lemma_in_pushed(before.push(atom), p_not(atom), p);
        assert(atoms.take(n) =~= atoms.take(n - 1).push(atoms[n - 1]));
        match p {
            Prop::Atom(name) => {
                lemma_in_pushed(atoms.take(n - 1), atoms[n - 1], name);
            },
            Prop::Not(a) => {
                match *a {
                    Prop::Atom(name) => {
                        lemma_in_pushed(atoms.take(n - 1), atoms[n - 1], name);
                    },
                    _ => {},
                }
            },
            _ => {},
        }
    }
}

/// A row holds what it is made of.
proof fn lemma_row(left: Prop, lits: Seq<Prop>, n: int, p: Prop)
    requires
        0 <= n <= lits.len(),
    ensures
        row(left, lits, n).contains(p) <==> exists|k: u32, i: int|
            0 <= i < n && p == #[trigger] joined(k, left, lits[i]),
    decreases n,
{
    let all = row(left, lits, n);
    if n == 0 {
        assert(all.len() == 0);
    } else {
        let before = row(left, lits, n - 1);
        let right = lits[n - 1];
        let last = seq![
            joined(0, left, right),
            joined(1, left, right),
            joined(2, left, right),
            joined(3, left, right),
        ];
        lemma_row(left, lits, n - 1, p);
        lemma_in_joined(before, last, p);
        assert(all == before + last);
        assert(last.contains(p) <==> exists|k: u32| p == #[trigger] joined(k, left, right)) by {
            if exists|k: u32| p == #[trigger] joined(k, left, right) {
                let k = choose|k: u32| p == #[trigger] joined(k, left, right);
                if k == 0 {
                    assert(last[0] == p);
                } else if k == 1 {
                    assert(last[1] == p);
                } else if k == 2 {
                    assert(last[2] == p);
                } else {
                    assert(last[3] == p);
                }
            }
            if last.contains(p) {
                let i = choose|i: int| 0 <= i < last.len() && last[i] == p;
                assert(p == joined(i as u32, left, right));
            }
        }
        if exists|k: u32, i: int| 0 <= i < n && p == #[trigger] joined(k, left, lits[i]) {
            let (k, i) = choose|k: u32, i: int|
                0 <= i < n && p == #[trigger] joined(k, left, lits[i]);
            if i < n - 1 {
                assert(p == joined(k, left, lits[i]));
            }
        }
        if last.contains(p) {
            let k = choose|k: u32| p == #[trigger] joined(k, left, right);
            assert(p == joined(k, left, lits[n - 1]));
        }
        if before.contains(p) {
            let (k, i) = choose|k: u32, i: int|
                0 <= i < n - 1 && p == #[trigger] joined(k, left, lits[i]);
            assert(p == joined(k, left, lits[i]));
        }
    }
}

/// The rows hold what they are made of.
proof fn lemma_rows(lits: Seq<Prop>, n: int, p: Prop)
    requires
        0 <= n <= lits.len(),
    ensures
        rows(lits, n).contains(p) <==> exists|j: int|
            0 <= j < n && #[trigger] row(lits[j], lits, lits.len() as int).contains(p),
    decreases n,
{
    if n == 0 {
        assert(rows(lits, n).len() == 0);
    } else {
        lemma_rows(lits, n - 1, p);
        lemma_in_joined(rows(lits, n - 1), row(lits[n - 1], lits, lits.len() as int), p);
        if exists|j: int|
            0 <= j < n && #[trigger] row(lits[j], lits, lits.len() as int).contains(p) {
            let j = choose|j: int|
                0 <= j < n && #[trigger] row(lits[j], lits, lits.len() as int).contains(p);
            if j < n - 1 {
                assert(row(lits[j], lits, lits.len() as int).contains(p));
            }
        }
        if rows(lits, n - 1).contains(p) {
            let j = choose|j: int|
                0 <= j < n - 1 && #[trigger] row(lits[j], lits, lits.len() as int).contains(p);
            assert(row(lits[j], lits, lits.len() as int).contains(p));
        }
        if row(lits[n - 1], lits, lits.len() as int).contains(p) {
            assert(0 <= n - 1 < n);
        }
    }
}

/// The small formulas in order are all small formulas.
pub proof fn law_smalls(atoms: Seq<Seq<char>>, p: Prop)
    ensures
        smalls(atoms).contains(p) <==> is_small(atoms, p),
{
    let n = atoms.len() as int;
    let lits = literals_upto(atoms, n);
    let m = lits.len() as int;
    assert(atoms.take(n) =~= atoms);
    lemma_literals(atoms, n, p);
    lemma_rows(lits, m, p);
    lemma_in_joined(lits, rows(lits, m), p);
    if rows(lits, m).contains(p) {
        let j = choose|j: int| 0 <= j < m && #[trigger] row(lits[j], lits, m).contains(p);
        lemma_row(lits[j], lits, m, p);
        let (k, i) = choose|k: u32, i: int|
            0 <= i < m && p == #[trigger] joined(k, lits[j], lits[i]);
        assert(lits.contains(lits[j]) && lits.contains(lits[i]));
        lemma_literals(atoms, n, lits[j]);
        lemma_literals(atoms, n, lits[i]);
        assert(p == joined(k, lits[j], lits[i]));
    }
    if is_small(atoms, p) && !is_literal(atoms, p) {
        let (k, left, right) = choose|k: u32, left: Prop, right: Prop|
            p == #[trigger] joined(k, left, right) && is_literal(atoms, left) && is_literal(
                atoms,
                right,
            );
        lemma_literals(atoms, n, left);
        lemma_literals(atoms, n, right);
        let j = choose|j: int| 0 <= j < m && lits[j] == left;
        let i = choose|i: int| 0 <= i < m && lits[i] == right;
        lemma_row(lits[j], lits, m, p);
        assert(p == joined(k, lits[j], lits[i]));
        assert(row(lits[j], lits, m).contains(p));
    }
}

/// A formula that is drawn is small.
proof fn lemma_small_drawn(atoms: Seq<Seq<char>>, held: Seq<u32>)
    requires
        atoms.len() > 0,
    ensures
        is_small(atoms, small_drawn(atoms, held).0),
{
    let (alone, h1) = coin_drawn(held);
    let (left, h2) = literal_drawn(atoms, h1);
    let (right, h3) = literal_drawn(atoms, h2);
    let (n, h4) = short_drawn_between(h3, 0, 3);
    lemma_literal_drawn(atoms, h1);
    lemma_literal_drawn(atoms, h2);
    if !alone {
        assert(small_drawn(atoms, held).0 == joined(n, left, right));
    }
}

/// A literal that is drawn is one.
pub proof fn lemma_literal_drawn(atoms: Seq<Seq<char>>, held: Seq<u32>)
    requires
        atoms.len() > 0,
    ensures
        is_literal(atoms, literal_drawn(atoms, held).0),
{
    let (i, h1) = index_drawn(held, atoms.len() as int);
    assert(0 <= i < atoms.len());
    assert(atoms.contains(atoms[i]));
}

/// Formulas that are short, different and consistent stay so as premises are drawn.
proof fn lemma_compatible_drawn(
    atoms: Seq<Seq<char>>,
    max: nat,
    n: int,
    kept: Seq<Prop>,
    tries: nat,
    held: Seq<u32>,
)
    requires
        are_compatible(max, kept),
    ensures
        are_compatible(max, premises_drawn(atoms, max, n, kept, tries, held).0),
    decreases n - kept.len(), tries,
{
    if kept.len() >= n {
    } else if tries == 0 {
        lemma_first_joining(kept, smalls(atoms), max);
        match first_joining(kept, smalls(atoms), max) {
            Some(f) => {
                assert(are_compatible(max, kept.push(f)));
                lemma_compatible_drawn(
                    atoms,
                    max,
                    n,
                    kept.push(f),
                    SAMPLE_TRIES as nat,
                    held,
                );
            },
            None => {},
        }
    } else {
        let (f, h1) = small_drawn(atoms, held);
        if may_join(kept, f, max) {
            assert(are_compatible(max, kept.push(f)));
            lemma_compatible_drawn(atoms, max, n, kept.push(f), SAMPLE_TRIES as nat, h1);
        } else {
            lemma_compatible_drawn(atoms, max, n, kept, (tries - 1) as nat, h1);
        }
    }
}

/// Sampled premises are as short as asked for and consistent with each other, and no two
/// are the same.
pub proof fn law_sampled_compatible(atoms: Seq<Seq<char>>, max: nat, most: int, held: Seq<u32>)
    ensures
        are_compatible(max, sampled(atoms, max, most, held).0),
{
    let (n, h1) = count_drawn(held, 2, most);
    let none = Seq::<Prop>::empty();
    assert(all_true(none, |name: Seq<char>| true));
    assert(satisfiable(none));
    lemma_compatible_drawn(atoms, max, n, none, SAMPLE_TRIES as nat, h1);
}

/// Premises stay as they should be as more are drawn. Either as many are drawn as asked
/// for, or no small formula may join them.
proof fn lemma_premises_drawn(
    atoms: Seq<Seq<char>>,
    max: nat,
    n: int,
    kept: Seq<Prop>,
    tries: nat,
    held: Seq<u32>,
)
    requires
        atoms.len() > 0,
        are_premises(atoms, max, kept),
        kept.len() <= n,
    ensures
        ({
            let drawn = premises_drawn(atoms, max, n, kept, tries, held).0;
            &&& are_premises(atoms, max, drawn)
            &&& kept.len() <= drawn.len() <= n
            &&& drawn.len() < n ==> forall|f: Prop| #[trigger]
                is_small(atoms, f) ==> !may_join(drawn, f, max)
        }),
    decreases n - kept.len(), tries,
{
    if kept.len() >= n {
    } else if tries == 0 {
        lemma_first_joining(kept, smalls(atoms), max);
        match first_joining(kept, smalls(atoms), max) {
            Some(f) => {
                law_smalls(atoms, f);
                assert(are_premises(atoms, max, kept.push(f)));
                lemma_premises_drawn(
                    atoms,
                    max,
                    n,
                    kept.push(f),
                    SAMPLE_TRIES as nat,
                    held,
                );
            },
            None => {
                assert forall|f: Prop| #[trigger] is_small(atoms, f) implies !may_join(
                    kept,
                    f,
                    max,
                ) by {
                    law_smalls(atoms, f);
                }
            },
        }
    } else {
        let (f, h1) = small_drawn(atoms, held);
        lemma_small_drawn(atoms, held);
        if may_join(kept, f, max) {
            assert(are_premises(atoms, max, kept.push(f)));
            lemma_premises_drawn(atoms, max, n, kept.push(f), SAMPLE_TRIES as nat, h1);
        } else {
            lemma_premises_drawn(atoms, max, n, kept, (tries - 1) as nat, h1);
        }
    }
}

/// How long the text of a literal is.
proof fn lemma_literal_len(atoms: Seq<Seq<char>>, p: Prop)
    requires
        is_literal(atoms, p),
    ensures
        bracket(p, bracketed(p)) == bracketed(p),
        match p {
            Prop::Atom(name) => bracketed(p).len() == name.len(),
            Prop::Not(a) => match *a {
                Prop::Atom(name) => bracketed(p).len() == name.len() + 1,
                _ => true,
            },
            _ => true,
        },
{
    reveal_strlit("~");
    reveal_with_fuel(bracketed, 2);
}

/// How long the text of two literals that are joined is.
proof fn lemma_joined_len(atoms: Seq<Seq<char>>, n: u32, left: Prop, right: Prop)
    requires
        is_literal(atoms, left),
        is_literal(atoms, right),
    ensures
        bracketed(joined(n, left, right)).len() >= bracketed(left).len() + bracketed(right).len()
            + 3,
        bracketed(joined(2, left, right)).len() == bracketed(left).len() + bracketed(right).len()
            + 3,
{
    lemma_literal_len(atoms, left);
    lemma_literal_len(atoms, right);
    reveal_strlit(" . ");
    reveal_strlit(" v ");
    reveal_strlit(" > ");
    reveal_strlit(" <-> ");
}

/// The name in a literal.
spec fn name_in(p: Prop) -> Seq<char> {
    match p {
        Prop::Atom(name) => name,
        Prop::Not(a) => match *a {
            Prop::Atom(name) => name,
            _ => seq![],
        },
        _ => seq![],
    }
}

/// Where two small formulas fit, one may join any other.
proof fn lemma_another(
    atoms: Seq<Seq<char>>,
    max: nat,
    x: Prop,
    f: Prop,
    g: Prop,
    v: Valuation,
) -> (y: Prop)
    requires
        is_small(atoms, x),
        fits(x, max),
        satisfiable(seq![x]),
        is_small(atoms, f),
        is_small(atoms, g),
        f != g,
        fits(f, max),
        fits(g, max),
        eval(f, v),
        eval(g, v),
    ensures
        is_small(atoms, y),
        may_join(seq![x], y, max),
{
    reveal_with_fuel(eval, 3);
    let w = choose|w: Valuation| all_true(seq![x], w);
    assert(eval(seq![x][0], w));
    if !is_literal(atoms, x) {
        let (n, left, right) = choose|n: u32, left: Prop, right: Prop|
            x == #[trigger] joined(n, left, right) && is_literal(atoms, left) && is_literal(
                atoms,
                right,
            );
        lemma_joined_len(atoms, n, left, right);
        let atom = Prop::Atom(name_in(left));
        let y = if eval(atom, w) {
            atom
        } else {
            p_not(atom)
        };
        lemma_literal_len(atoms, left);
        lemma_literal_len(atoms, y);
        lemma_beside(x, y, max, w);
        y
    } else if !is_literal(atoms, f) {
        lemma_taut(atoms, max, x, f, w)
    } else if !is_literal(atoms, g) {
        lemma_taut(atoms, max, x, g, w)
    } else {
        let y = if name_in(f) != name_in(x) {
            f
        } else {
            g
        };
        assert(name_in(f) != name_in(g));
        let u = |name: Seq<char>| if name == name_in(y) {
            v(name)
        } else {
            w(name)
        };
        assert(eval(x, u));
        assert(eval(y, u));
        lemma_beside(x, y, max, u);
        y
    }
}

/// Another formula that holds together with the only premise may join it.
proof fn lemma_beside(x: Prop, y: Prop, max: nat, w: Valuation)
    requires
        x != y,
        fits(y, max),
        eval(x, w),
        eval(y, w),
    ensures
        may_join(seq![x], y, max),
{
    let s = seq![x].push(y);
    assert(s =~= seq![x, y]);
    assert(all_true(s, w));
    assert(!seq![x].contains(y)) by {
        if seq![x].contains(y) {
            let i = choose|i: int| 0 <= i < seq![x].len() && seq![x][i] == y;
            assert(i == 0);
        }
    }
}

/// Where a compound fits, so does a tautology of the kind `u > u`, which may join a
/// literal.
proof fn lemma_taut(atoms: Seq<Seq<char>>, max: nat, x: Prop, f: Prop, w: Valuation) -> (y: Prop)
    requires
        is_literal(atoms, x),
        eval(x, w),
        is_small(atoms, f),
        !is_literal(atoms, f),
        fits(f, max),
    ensures
        is_small(atoms, y),
        may_join(seq![x], y, max),
{
    let (n, left, right) = choose|n: u32, left: Prop, right: Prop|
        f == #[trigger] joined(n, left, right) && is_literal(atoms, left) && is_literal(
            atoms,
            right,
        );
    lemma_joined_len(atoms, n, left, right);
    let u = if bracketed(left).len() <= bracketed(right).len() {
        left
    } else {
        right
    };
    lemma_joined_len(atoms, 2, u, u);
    let y = joined(2, u, u);
    assert(y == p_implies(u, u));
    lemma_beside(x, y, max, w);
    y
}

/// Sampled premises are small formulas over the pool, as short as asked for and
/// consistent with each other, no two the same. There are no more than asked for, and two
/// at least wherever two fit.
pub proof fn law_sampled(atoms: Seq<Seq<char>>, max: nat, most: int, held: Seq<u32>)
    requires
        atoms.len() > 0,
        2 <= most <= u64::MAX,
    ensures
        are_premises(atoms, max, sampled(atoms, max, most, held).0),
        sampled(atoms, max, most, held).0.len() <= most,
        two_fit(atoms, max) ==> sampled(atoms, max, most, held).0.len() >= 2,
{
    let (n, h1) = count_drawn(held, 2, most);
    let none = Seq::<Prop>::empty();
    assert(all_true(none, |name: Seq<char>| true));
    assert(satisfiable(none));
    lemma_premises_drawn(atoms, max, n, none, SAMPLE_TRIES as nat, h1);
    let drawn = sampled(atoms, max, most, held).0;
    if two_fit(atoms, max) && drawn.len() < 2 {
        let (f, g) = choose|f: Prop, g: Prop|
            #[trigger] is_small(atoms, f) && #[trigger] is_small(atoms, g) && f != g && fits(
                f,
                max,
            ) && fits(g, max) && satisfiable(seq![f, g]);
        let v = choose|v: Valuation| all_true(seq![f, g], v);
        assert(eval(seq![f, g][0], v) && eval(seq![f, g][1], v));
        if drawn.len() == 0 {
            assert(all_true(drawn.push(f), v)) by {
                assert(drawn.push(f) =~= seq![f]);
            }
            assert(may_join(drawn, f, max));
        } else {
            let x = drawn[0];
            assert(drawn =~= seq![x]);
            assert(fits(drawn[0], max) && is_small(atoms, drawn[0]));
            let y = lemma_another(atoms, max, x, f, g, v);
            assert(may_join(drawn, y, max));
        }
    }
}

/// As many premises are sampled as the dice ask for, unless no small formula may join those
/// that there are: each is too long, there already, or inconsistent with them.
pub proof fn law_sampled_count(atoms: Seq<Seq<char>>, max: nat, most: int, held: Seq<u32>)
    requires
        atoms.len() > 0,
        2 <= most <= u64::MAX,
    ensures
        ({
            let drawn = sampled(atoms, max, most, held).0;
            let n = count_drawn(held, 2, most).0;
            &&& 2 <= n <= most
            &&& drawn.len() == n || (drawn.len() < n && forall|f: Prop| #[trigger]
                is_small(atoms, f) ==> bracketed(f).len() > max || drawn.contains(f)
                    || !satisfiable(drawn.push(f)))
        }),
{
    let (n, h1) = count_drawn(held, 2, most);
    let none = Seq::<Prop>::empty();
    assert(all_true(none, |name: Seq<char>| true));
    assert(satisfiable(none));
    lemma_premises_drawn(atoms, max, n, none, SAMPLE_TRIES as nat, h1);
    let drawn = sampled(atoms, max, most, held).0;
    if drawn.len() < n {
        assert forall|f: Prop| #[trigger] is_small(atoms, f) implies bracketed(f).len() > max
            || drawn.contains(f) || !satisfiable(drawn.push(f)) by {
            assert(!may_join(drawn, f, max));
        }
    }
}

/// The first formula that is drawn is the first premise, if it is short enough and can be
/// true.
pub proof fn law_first_premise(atoms: Seq<Seq<char>>, max: nat, most: int, held: Seq<u32>)
    requires
        2 <= most <= u64::MAX,
    ensures
        ({
            let first = small_drawn(atoms, count_drawn(held, 2, most).1).0;
            bracketed(first).len() <= max && satisfiable(seq![first]) ==> sampled(
                atoms,
                max,
                most,
                held,
            ).0.len() >= 1 && sampled(atoms, max, most, held).0[0] == first
        }),
{
    let (n, h1) = count_drawn(held, 2, most);
    let (f, h2) = small_drawn(atoms, h1);
    let none = Seq::<Prop>::empty();
    assert(none.push(f) =~= seq![f]);
    if bracketed(f).len() <= max && satisfiable(seq![f]) {
        assert(may_join(none, f, max));
        lemma_drawn_keeps(atoms, max, n, none.push(f), SAMPLE_TRIES as nat, h2);
        let all = premises_drawn(atoms, max, n, none.push(f), SAMPLE_TRIES as nat, h2).0;
        assert(all.take(1)[0] == f);
    }
}

/// What is kept stays first.
proof fn lemma_drawn_keeps(
    atoms: Seq<Seq<char>>,
    max: nat,
    n: int,
    kept: Seq<Prop>,
    tries: nat,
    held: Seq<u32>,
)
    ensures
        ({
            let all = premises_drawn(atoms, max, n, kept, tries, held).0;
            &&& kept.len() <= all.len()
            &&& all.take(kept.len() as int) == kept
        }),
    decreases n - kept.len(), tries,
{
    let all = premises_drawn(atoms, max, n, kept, tries, held).0;
    if kept.len() >= n {
        assert(all.take(kept.len() as int) =~= kept);
    } else if tries == 0 {
        match first_joining(kept, smalls(atoms), max) {
            Some(f) => {
                lemma_drawn_keeps(atoms, max, n, kept.push(f), SAMPLE_TRIES as nat, held);
                assert(all.take(kept.len() as int) =~= all.take(kept.len() as int + 1).take(
                    kept.len() as int,
                ));
                assert(kept.push(f).take(kept.len() as int) =~= kept);
            },
            None => {
                assert(all.take(kept.len() as int) =~= kept);
            },
        }
    } else {
        let (f, h1) = small_drawn(atoms, held);
        if may_join(kept, f, max) {
            lemma_drawn_keeps(atoms, max, n, kept.push(f), SAMPLE_TRIES as nat, h1);
            assert(all.take(kept.len() as int) =~= all.take(kept.len() as int + 1).take(
                kept.len() as int,
            ));
            assert(kept.push(f).take(kept.len() as int) =~= kept);
        } else {
            lemma_drawn_keeps(atoms, max, n, kept, (tries - 1) as nat, h1);
        }
    }
}

/// Every formula that is drawn is taken as the next premise if it is short enough, new and
/// consistent with those before it, and passed over if not. Only after a hundred thousand
/// in a row were passed over are the small formulas gone through in order.
pub proof fn law_next_premise(
    atoms: Seq<Seq<char>>,
    max: nat,
    n: int,
    kept: Seq<Prop>,
    tries: nat,
    held: Seq<u32>,
)
    requires
        kept.len() < n,
        tries > 0,
    ensures
        ({
            let (f, h) = small_drawn(atoms, held);
            let joins = bracketed(f).len() <= max && !kept.contains(f) && satisfiable(kept.push(f));
            let all = premises_drawn(atoms, max, n, kept, tries, held);
            &&& joins ==> all.0.len() > kept.len() && all.0.take(kept.len() as int) == kept
                && all.0[kept.len() as int] == f
            &&& joins ==> all == premises_drawn(atoms, max, n, kept.push(f), 100_000, h)
            &&& !joins ==> all == premises_drawn(atoms, max, n, kept, (tries - 1) as nat, h)
        }),
{
    let (f, h) = small_drawn(atoms, held);
    lemma_drawn_keeps(atoms, max, n, kept, tries, held);
    if may_join(kept, f, max) {
        lemma_drawn_keeps(atoms, max, n, kept.push(f), SAMPLE_TRIES as nat, h);
        let all = premises_drawn(atoms, max, n, kept.push(f), SAMPLE_TRIES as nat, h).0;
        assert(all.take(kept.len() as int + 1)[kept.len() as int] == f);
    }
}

/// A literal is the atom at a drawn position, negated by a coin.
pub proof fn law_literal_drawn(atoms: Seq<Seq<char>>, held: Seq<u32>)
    ensures
        ({
            let (i, h) = index_drawn(held, atoms.len() as int);
            let atom = Prop::Atom(atoms[i]);
            &&& coin_drawn(h).0 ==> literal_drawn(atoms, held).0 == p_not(atom)
            &&& !coin_drawn(h).0 ==> literal_drawn(atoms, held).0 == atom
            &&& literal_drawn(atoms, held).1 == coin_drawn(h).1
        }),
{
}

/// Where a letter comes among those that atoms take: `P` to `T`, then the others in order.
pub open spec fn letter_rank(c: char) -> int {
    if c >= 'U' {
        c as int - 'U' as int + 20
    } else if c >= 'P' {
        c as int - 'P' as int
    } else {
        c as int - 'A' as int + 5
    }
}

/// A letter is a capital, and stands at its rank.
proof fn lemma_letter(i: int)
    requires
        0 <= i < 26,
    ensures
        letter(i).len() == 1,
        'A' <= letter(i)[0] <= 'Z',
        letter_rank(letter(i)[0]) == i,
{
    reveal_strlit("PQRSTABCDEFGHIJKLMNOUVWXYZ");
    let letters = "PQRSTABCDEFGHIJKLMNOUVWXYZ"@;
    assert(letters[0] == 'P');
    assert(letters[1] == 'Q');
    assert(letters[2] == 'R');
    assert(letters[3] == 'S');
    assert(letters[4] == 'T');
    assert(letters[5] == 'A');
    assert(letters[6] == 'B');
    assert(letters[7] == 'C');
    assert(letters[8] == 'D');
    assert(letters[9] == 'E');
    assert(letters[10] == 'F');
    assert(letters[11] == 'G');
    assert(letters[12] == 'H');
    assert(letters[13] == 'I');
    assert(letters[14] == 'J');
    assert(letters[15] == 'K');
    assert(letters[16] == 'L');
    assert(letters[17] == 'M');
    assert(letters[18] == 'N');
    assert(letters[19] == 'O');
    assert(letters[20] == 'U');
    assert(letters[21] == 'V');
    assert(letters[22] == 'W');
    assert(letters[23] == 'X');
    assert(letters[24] == 'Y');
    assert(letters[25] == 'Z');
    assert(letter(i)[0] == letters[i]);
}

/// The pool has as many names as asked for, and no two are the same. Each is a capital
/// letter, by rank, and from the second round on the number of the round in digits.
pub proof fn law_pool(n: nat, i: int, j: int)
    requires
        0 <= i < n,
        0 <= j < n,
    ensures
        pool(n).len() == n,
        i != j ==> pool(n)[i] != pool(n)[j],
        'A' <= pool(n)[i][0] <= 'Z',
        letter_rank(pool(n)[i][0]) == i % 26,
        i < 26 ==> pool(n)[i].len() == 1,
        i >= 26 ==> digits_value(pool(n)[i].drop_first()) == i / 26,
        forall|k: int|
            1 <= k < pool(n)[i].len() ==> '0' <= #[trigger] pool(n)[i][k] <= '9',
{
    lemma_atom_name(i);
    lemma_atom_name(j);
}

/// [`law_pool`] for one name.
proof fn lemma_atom_name(i: int)
    requires
        0 <= i,
    ensures
        atom_name(i).len() >= 1,
        'A' <= atom_name(i)[0] <= 'Z',
        letter_rank(atom_name(i)[0]) == i % 26,
        i < 26 <==> atom_name(i).len() == 1,
        i >= 26 ==> digits_value(atom_name(i).drop_first()) == i / 26,
        forall|k: int| 1 <= k < atom_name(i).len() ==> '0' <= #[trigger] atom_name(i)[k] <= '9',
{
    lemma_letter(i % 26);
    if i >= 26 {
        let d = decimal((i / 26) as nat);
        law_decimal((i / 26) as nat);
        assert(atom_name(i).drop_first() =~= d);
        assert forall|k: int| 1 <= k < atom_name(i).len() implies '0' <= #[trigger] atom_name(i)[k]
            <= '9' by {
            assert(atom_name(i)[k] == d[k - 1]);
        }
    }
}

/// A coin decides whether a small formula is a literal. Otherwise it joins two literals,
/// and a draw of four decides by what: conjunction, disjunction, implication or
/// equivalence.
pub proof fn law_small_drawn(atoms: Seq<Seq<char>>, held: Seq<u32>)
    requires
        atoms.len() > 0,
    ensures
        ({
            let (alone, h1) = coin_drawn(held);
            let (left, h2) = literal_drawn(atoms, h1);
            let (right, h3) = literal_drawn(atoms, h2);
            let n = short_drawn_between(h3, 0, 3).0;
            let f = small_drawn(atoms, held).0;
            &&& is_literal(atoms, left) && is_literal(atoms, right)
            &&& alone ==> f == left
            &&& !alone && n == 0 ==> f == p_and(left, right)
            &&& !alone && n == 1 ==> f == p_or(left, right)
            &&& !alone && n == 2 ==> f == p_implies(left, right)
            &&& !alone && n == 3 ==> f == p_iff(left, right)
        }),
{
    let (alone, h1) = coin_drawn(held);
    let (left, h2) = literal_drawn(atoms, h1);
    lemma_literal_drawn(atoms, h1);
    lemma_literal_drawn(atoms, h2);
}

/// An atom of the pool or its negation.
pub fn sample_literal(dice: &mut Dice, atoms: &Vec<String>) -> (r: Formula)
    requires
        atoms@.len() > 0,
    ensures
        (r@, final(dice)@) == literal_drawn(name_views(atoms@), old(dice)@),
{
    let i = dice.index(atoms.len());
    let atom = Formula::Atom(atoms[i].clone());
    assert(atom@ == Prop::Atom(name_views(atoms@)[i as int]));
    if dice.coin() {
        Formula::Not(Box::new(atom))
    } else {
        atom
    }
}

/// Two formulas joined by the connective with a number.
pub fn join_with(n: u32, left: Formula, right: Formula) -> (r: Formula)
    ensures
        r@ == joined(n, left@, right@),
{
    if n == 0 {
        Formula::And(Box::new(left), Box::new(right))
    } else if n == 1 {
        Formula::Or(Box::new(left), Box::new(right))
    } else if n == 2 {
        Formula::Implies(Box::new(left), Box::new(right))
    } else {
        Formula::Biconditional(Box::new(left), Box::new(right))
    }
}

/// A literal or two literals joined by a connective.
pub fn sample_small_formula(dice: &mut Dice, atoms: &Vec<String>) -> (r: Formula)
    requires
        atoms@.len() > 0,
    ensures
        (r@, final(dice)@) == small_drawn(name_views(atoms@), old(dice)@),
{
    if dice.coin() {
        sample_literal(dice, atoms)
    } else {
        let left = sample_literal(dice, atoms);
        let right = sample_literal(dice, atoms);
        let n = dice.quarter();
        join_with(n, left, right)
    }
}

/// Whether a formula may join the premises: if so, it does.
fn join_if_fit(kept: &mut Vec<Formula>, f: Formula, spec: &PlantSpec) -> (r: bool)
    ensures
        r == may_join(views(old(kept)@), f@, spec.max_formula_len as nat),
        r ==> views(final(kept)@) == views(old(kept)@).push(f@),
        !r ==> final(kept)@ == old(kept)@,
{
    broadcast use lemma_views_push;

    let ghost before = kept@;
    if within_len(&f, spec) && !contains(kept, &f) {
        kept.push(f);
        if is_satisfiable_dynamic(kept) {
            return true;
        }
        let _ = kept.pop();
        assert(kept@ =~= before);
    }
    false
}

/// The literals over the pool, in order.
fn all_literals(atoms: &Vec<String>) -> (r: Vec<Formula>)
    ensures
        views(r@) == literals_upto(name_views(atoms@), atoms@.len() as int),
{
    broadcast use lemma_views_push;

    let ghost names = name_views(atoms@);
    let mut r: Vec<Formula> = Vec::new();
    let mut i: usize = 0;
    assert(views(r@) =~= literals_upto(names, 0));
    while i < atoms.len()
        invariant
            i <= atoms@.len(),
            names == name_views(atoms@),
            views(r@) == literals_upto(names, i as int),
        decreases atoms@.len() - i,
    {
        let atom = Formula::Atom(atoms[i].clone());
        assert(atom@ == Prop::Atom(names[i as int]));
        let negation = not_of(&atom);
        r.push(atom);
        r.push(negation);
        i = i + 1;
    }
    r
}

/// Lets the first formula of a row that may join the premises do so.
fn join_from_row(kept: &mut Vec<Formula>, left: &Formula, lits: &Vec<Formula>, spec: &PlantSpec) -> (r:
    bool)
    ensures
        ({
            let max = spec.max_formula_len as nat;
            let s = row(left@, views(lits@), lits@.len() as int);
            match first_joining(views(old(kept)@), s, max) {
                Some(f) => r && views(final(kept)@) == views(old(kept)@).push(f),
                None => !r && final(kept)@ == old(kept)@,
            }
        }),
{
    let ghost max = spec.max_formula_len as nat;
    let ghost ls = views(lits@);
    let ghost kv = views(kept@);
    let mut i: usize = 0;
    while i < lits.len()
        invariant
            i <= lits@.len(),
            max == spec.max_formula_len as nat,
            ls == views(lits@),
            kept@ == old(kept)@,
            kv == views(kept@),
            first_joining(kv, row(left@, ls, i as int), max) is None,
        decreases lits@.len() - i,
    {
        let ghost before = row(left@, ls, i as int);
        let ghost right = ls[i as int];
        let ghost four = seq![
            joined(0, left@, right),
            joined(1, left@, right),
            joined(2, left@, right),
            joined(3, left@, right),
        ];
        proof {
            assert(row(left@, ls, i as int + 1) == before + four);
            lemma_joining_in_turn(kv, before, four, max);
        }
        let mut n: u32 = 0;
        assert(four.take(0) =~= seq![]);
        while n < 4
            invariant
                n <= 4,
                i < lits@.len(),
                max == spec.max_formula_len as nat,
                ls == views(lits@),
                right == ls[i as int],
                four == seq![
                    joined(0, left@, right),
                    joined(1, left@, right),
                    joined(2, left@, right),
                    joined(3, left@, right),
                ],
                before == row(left@, ls, i as int),
                first_joining(kv, before, max) is None,
                first_joining(kv, row(left@, ls, i as int + 1), max) == first_joining(
                    kv,
                    four,
                    max,
                ),
                kept@ == old(kept)@,
                kv == views(kept@),
                first_joining(kv, four.take(n as int), max) is None,
            decreases 4 - n,
        {
            let f = join_with(n, left.clone(), lits[i].clone());
            let ghost t = four.take(n as int + 1);
            assert(t.drop_last() =~= four.take(n as int));
            assert(lits@[i as int]@ == right);
            assert(f@ == four[n as int]);
            assert(t.last() == f@);
            let ghost fv = f@;
            if join_if_fit(kept, f, spec) {
                proof {
                    assert(first_joining(kv, t, max) == Some(fv));
                    assert(four =~= t + four.skip(n as int + 1));
                    lemma_joining_in_turn(kv, t, four.skip(n as int + 1), max);
                    lemma_row_prefix(kv, left@, ls, i as int + 1, ls.len() as int, max);
                }
                return true;
            }
            n = n + 1;
        }
        assert(four.take(4) =~= four);
        i = i + 1;
    }
    false
}

/// What is found in a beginning of a row is found in the row.
proof fn lemma_row_prefix(kept: Seq<Prop>, left: Prop, lits: Seq<Prop>, m: int, n: int, max: nat)
    requires
        0 <= m <= n,
        first_joining(kept, row(left, lits, m), max) is Some,
    ensures
        first_joining(kept, row(left, lits, n), max) == first_joining(
            kept,
            row(left, lits, m),
            max,
        ),
    decreases n - m,
{
    if m < n {
        lemma_row_prefix(kept, left, lits, m, n - 1, max);
        let right = lits[n - 1];
        let four = seq![
            joined(0, left, right),
            joined(1, left, right),
            joined(2, left, right),
            joined(3, left, right),
        ];
        assert(row(left, lits, n) == row(left, lits, n - 1) + four);
        lemma_joining_in_turn(kept, row(left, lits, n - 1), four, max);
    }
}

/// What is found in the first rows is found in all of them.
proof fn lemma_rows_prefix(kept: Seq<Prop>, lits: Seq<Prop>, m: int, n: int, max: nat)
    requires
        0 <= m <= n,
        first_joining(kept, rows(lits, m), max) is Some,
    ensures
        first_joining(kept, rows(lits, n), max) == first_joining(kept, rows(lits, m), max),
    decreases n - m,
{
    if m < n {
        lemma_rows_prefix(kept, lits, m, n - 1, max);
        lemma_joining_in_turn(
            kept,
            rows(lits, n - 1),
            row(lits[n - 1], lits, lits.len() as int),
            max,
        );
    }
}

/// Lets the first literal that may join the premises do so.
fn join_literal(kept: &mut Vec<Formula>, lits: &Vec<Formula>, spec: &PlantSpec) -> (r: bool)
    ensures
        match first_joining(views(old(kept)@), views(lits@), spec.max_formula_len as nat) {
            Some(f) => r && views(final(kept)@) == views(old(kept)@).push(f),
            None => !r && final(kept)@ == old(kept)@,
        },
{
    let ghost max = spec.max_formula_len as nat;
    let ghost ls = views(lits@);
    let ghost kv = views(kept@);
    let mut i: usize = 0;
    assert(ls.take(0) =~= seq![]);
    while i < lits.len()
        invariant
            i <= lits@.len(),
            max == spec.max_formula_len as nat,
            ls == views(lits@),
            kept@ == old(kept)@,
            kv == views(kept@),
            first_joining(kv, ls.take(i as int), max) is None,
        decreases lits@.len() - i,
    {
        let ghost t = ls.take(i as int + 1);
        assert(t.drop_last() =~= ls.take(i as int));
        assert(t.last() == lits@[i as int]@);
        if join_if_fit(kept, lits[i].clone(), spec) {
            proof {
                assert(ls =~= t + ls.skip(i as int + 1));
                lemma_joining_in_turn(kv, t, ls.skip(i as int + 1), max);
            }
            return true;
        }
        i = i + 1;
    }
    assert(ls.take(ls.len() as int) =~= ls);
    false
}

/// Lets the first small formula that may join the premises do so.
fn join_small(kept: &mut Vec<Formula>, atoms: &Vec<String>, spec: &PlantSpec) -> (r: bool)
    ensures
        match first_joining(
            views(old(kept)@),
            smalls(name_views(atoms@)),
            spec.max_formula_len as nat,
        ) {
            Some(f) => r && views(final(kept)@) == views(old(kept)@).push(f),
            None => !r && final(kept)@ == old(kept)@,
        },
{
    let ghost max = spec.max_formula_len as nat;
    let ghost kv = views(kept@);
    let lits = all_literals(atoms);
    let ghost ls = views(lits@);
    proof {
        assert(name_views(atoms@).len() == atoms@.len());
        lemma_joining_in_turn(kv, ls, rows(ls, ls.len() as int), max);
    }
    if join_literal(kept, &lits, spec) {
        return true;
    }
    let mut i: usize = 0;
    while i < lits.len()
        invariant
            i <= lits@.len(),
            max == spec.max_formula_len as nat,
            ls == views(lits@),
            kept@ == old(kept)@,
            kv == views(kept@),
            first_joining(kv, rows(ls, i as int), max) is None,
            first_joining(kv, smalls(name_views(atoms@)), max) == first_joining(
                kv,
                rows(ls, ls.len() as int),
                max,
            ),
        decreases lits@.len() - i,
    {
        proof {
            assert(ls[i as int] == lits@[i as int]@);
            lemma_joining_in_turn(
                kv,
                rows(ls, i as int),
                row(ls[i as int], ls, ls.len() as int),
                max,
            );
        }
        if join_from_row(kept, &lits[i], &lits, spec) {
            proof {
                lemma_rows_prefix(kv, ls, i as int + 1, ls.len() as int, max);
            }
            return true;
        }
        i = i + 1;
    }
    false
}

/// Premises as short as asked for, all different and consistent with each other: no more
/// than asked for, and two at least wherever two fit.
pub fn sample_premises(dice: &mut Dice, atoms: &Vec<String>, spec: &PlantSpec) -> (r: Vec<Formula>)
    requires
        atoms@.len() > 0,
        spec.max_premises >= 2,
    ensures
        (views(r@), final(dice)@) == sampled(
            name_views(atoms@),
            spec.max_formula_len as nat,
            spec.max_premises as int,
            old(dice)@,
        ),
        r@.len() <= spec.max_premises,
        two_fit(name_views(atoms@), spec.max_formula_len as nat) ==> r@.len() >= 2,
        are_premises(name_views(atoms@), spec.max_formula_len as nat, views(r@)),
{
    let n = dice.count(2, spec.max_premises);
    let ghost names = name_views(atoms@);
    let ghost max = spec.max_formula_len as nat;
    let ghost whole = premises_drawn(names, max, n as int, seq![], SAMPLE_TRIES as nat, dice@);
    proof {
        assert(names.len() == atoms@.len());
        law_sampled(names, max, spec.max_premises as int, old(dice)@);
    }
    let mut kept: Vec<Formula> = Vec::new();
    let mut tries: u64 = SAMPLE_TRIES;
    let mut full = false;
    assert(views(kept@) =~= seq![]);
    while kept.len() < n && !full
        invariant
            atoms@.len() > 0,
            names == name_views(atoms@),
            max == spec.max_formula_len as nat,
            !full ==> whole == premises_drawn(
                names,
                max,
                n as int,
                views(kept@),
                tries as nat,
                dice@,
            ),
            full ==> whole == (views(kept@), dice@),
        decreases n - kept@.len() + (if full { 0int } else { 1int }), tries,
    {
        let ghost before = views(kept@);
        assert(before.len() == kept@.len());
        if tries == 0 {
            if join_small(&mut kept, atoms, spec) {
                tries = SAMPLE_TRIES;
            } else {
                full = true;
            }
        } else {
            let f = sample_small_formula(dice, atoms);
            if join_if_fit(&mut kept, f, spec) {
                tries = SAMPLE_TRIES;
            } else {
                tries = tries - 1;
            }
        }
        assert(views(kept@).len() == kept@.len());
    }
    assert(views(kept@).len() == kept@.len());
    kept
}

} // verus!
