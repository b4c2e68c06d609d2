//! What is written can be read back: a formula whose atoms have names that a text may
//! hold is the formula that its text, in either style, is.

use vstd::prelude::*;

use crate::models::formula::{p_and, p_iff, p_implies, p_not, p_or, Prop};
use crate::models::parse::{
    arrow_at, goes_on, joined, name_end, parsed, read, read_more, single, starts_name, sym_at,
    symbols, symbols_from, ParseError, Sym,
};
use crate::models::text::{ascii, binding, bracket, bracket_level, bracketed};

verus! {

/// Whether a text may hold the name: a capital letter followed by letters and digits.
pub open spec fn plain_name(name: Seq<char>) -> bool {
    &&& name.len() > 0
    &&& 'A' <= name[0] <= 'Z'
    &&& forall|i: int|
        1 <= i < name.len() ==> 'A' <= #[trigger] name[i] <= 'Z' || 'a' <= name[i] <= 'z' || '0'
            <= name[i] <= '9'
}

/// Whether a text may hold the names of all atoms of the formula.
pub open spec fn plain(p: Prop) -> bool
    decreases p,
{
    match p {
        Prop::Atom(name) => plain_name(name),
        Prop::Contradiction => true,
        Prop::Not(a) => plain(*a),
        Prop::And(a, b) | Prop::Or(a, b) | Prop::Implies(a, b) | Prop::Biconditional(a, b) => plain(
            *a,
        ) && plain(*b),
    }
}

/// The pair of brackets that a part is put in: with `full`, that of its level.
spec fn kind(p: Prop, full: bool) -> u8 {
    if !full || bracket_level(p) <= 1 {
        0
    } else if bracket_level(p) == 2 {
        1
    } else {
        2
    }
}

/// Whether a part is put in brackets where those that bind no tighter than `limit` are;
/// with `full`, whether it joins two formulas.
spec fn wrapped(p: Prop, limit: int, full: bool) -> bool {
    binding(p) <= if full {
        3
    } else {
        limit
    }
}

/// The opening bracket of a kind, as text.
pub open spec fn opening(k: u8) -> Seq<char> {
    if k == 0 {
        "("@
    } else if k == 1 {
        "["@
    } else {
        "{"@
    }
}

/// The closing bracket of a kind, as text.
pub open spec fn closing(k: u8) -> Seq<char> {
    if k == 0 {
        ")"@
    } else if k == 1 {
        "]"@
    } else {
        "}"@
    }
}

/// The connective of a binding, as text.
spec fn connective(k: int) -> Seq<char> {
    if k >= 3 {
        " . "@
    } else if k == 2 {
        " v "@
    } else if k == 1 {
        " > "@
    } else {
        " <-> "@
    }
}

/// The text of a formula, in either style.
spec fn text(p: Prop, full: bool) -> Seq<char>
    decreases p, 0int,
{
    match p {
        Prop::Atom(name) => name,
        Prop::Contradiction => "#"@,
        Prop::Not(a) => "~"@ + part_text(*a, 3, full),
        Prop::And(a, b) | Prop::Or(a, b) | Prop::Implies(a, b) | Prop::Biconditional(a, b) => {
            part_text(*a, binding(p), full) + connective(binding(p)) + part_text(
                *b,
                binding(p),
                full,
            )
        },
    }
}

/// The text of a part, in brackets where it calls for them.
spec fn part_text(p: Prop, limit: int, full: bool) -> Seq<char>
    decreases p, 1int,
{
    if wrapped(p, limit, full) {
        opening(kind(p, full)) + text(p, full) + closing(kind(p, full))
    } else {
        text(p, full)
    }
}

/// The symbols of the text of a formula, in either style.
spec fn spelled(p: Prop, full: bool) -> Seq<Sym>
    decreases p, 0int,
{
    match p {
        Prop::Atom(name) => seq![Sym::Name(name)],
        Prop::Contradiction => seq![Sym::Falsum],
        Prop::Not(a) => seq![Sym::Neg] + part_spelled(*a, 3, full),
        Prop::And(a, b) | Prop::Or(a, b) | Prop::Implies(a, b) | Prop::Biconditional(a, b) => {
            part_spelled(*a, binding(p), full) + seq![Sym::Join(binding(p) as u8)] + part_spelled(
                *b,
                binding(p),
                full,
            )
        },
    }
}

/// The symbols of the text of a part.
spec fn part_spelled(p: Prop, limit: int, full: bool) -> Seq<Sym>
    decreases p, 1int,
{
    if wrapped(p, limit, full) {
        seq![Sym::Open(kind(p, full))] + spelled(p, full) + seq![Sym::Close(kind(p, full))]
    } else {
        spelled(p, full)
    }
}

/// The two styles are those of [`ascii`] and [`bracketed`].
proof fn lemma_styles(p: Prop)
    ensures
        text(p, false) == ascii(p),
        text(p, true) == bracketed(p),
    decreases p,
{
    match p {
        Prop::Atom(_) | Prop::Contradiction => {},
        Prop::Not(a) => lemma_styles(*a),
        Prop::And(a, b) | Prop::Or(a, b) | Prop::Implies(a, b) | Prop::Biconditional(a, b) => {
            lemma_styles(*a);
            lemma_styles(*b);
        },
    }
}

/// `t` before the symbols of the rest, where there are any.
spec fn before(t: Seq<Sym>, rest: Option<Seq<Sym>>) -> Option<Seq<Sym>> {
    match rest {
        Some(r) => Some(t + r),
        None => None,
    }
}

/// Whether the text `t` stands at `i`.
spec fn stands(s: Seq<char>, i: int, t: Seq<char>) -> bool {
    &&& 0 <= i
    &&& i + t.len() <= s.len()
    &&& s.subrange(i, i + t.len()) == t
}

/// Whether no name goes on at `i`.
spec fn ends_name(s: Seq<char>, i: int) -> bool {
    i >= s.len() || !goes_on(s[i])
}

/// Two texts, one after the other.
proof fn lemma_stands(s: Seq<char>, i: int, t: Seq<char>, u: Seq<char>)
    requires
        stands(s, i, t + u),
    ensures
        stands(s, i, t),
        stands(s, i + t.len(), u),
        u.len() > 0 ==> s[i + t.len()] == u[0],
{
    let whole = s.subrange(i, i + (t + u).len());
    assert(s.subrange(i, i + t.len()) =~= t) by {
        assert forall|j: int| 0 <= j < t.len() implies s[i + j] == t[j] by {
            assert(whole[j] == (t + u)[j]);
        }
    }
    assert(s.subrange(i + t.len(), i + t.len() + u.len()) =~= u) by {
        assert forall|j: int| 0 <= j < u.len() implies s[i + t.len() + j] == u[j] by {
            assert(whole[t.len() + j] == (t + u)[t.len() + j]);
        }
    }
    if u.len() > 0 {
        assert(s.subrange(i + t.len(), i + t.len() + u.len())[0] == u[0]);
    }
}

/// The symbol that one character is.
proof fn lemma_single(s: Seq<char>, i: int, t: Seq<char>, sym: Sym)
    requires
        t.len() == 1,
        stands(s, i, t),
        t[0] != ' ',
        !starts_name(t[0]),
        t[0] != '<',
        single(t[0]) == Some(sym),
    ensures
        symbols_from(s, i) == before(seq![sym], symbols_from(s, i + 1)),
{
    assert(s.subrange(i, i + 1)[0] == t[0]);
}

/// The symbol that a connective is.
proof fn lemma_connective(s: Seq<char>, i: int, k: int)
    requires
        0 <= k <= 3,
        stands(s, i, connective(k)),
    ensures
        symbols_from(s, i) == before(
            seq![Sym::Join(k as u8)],
            symbols_from(s, i + connective(k).len()),
        ),
{
    let t = connective(k);
    reveal_strlit(" . ");
    reveal_strlit(" v ");
    reveal_strlit(" > ");
    reveal_strlit(" <-> ");
    assert forall|j: int| 0 <= j < t.len() implies s[i + j] == t[j] by {
        assert(s.subrange(i, i + t.len())[j] == t[j]);
    }
    assert(s[i] == t[0] && s[i + 1] == t[1] && s[i + 2] == t[2]);
    assert(symbols_from(s, i) == symbols_from(s, i + 1));
    if k == 0 {
        assert(s[i + 3] == t[3] && s[i + 4] == t[4]);
        assert(arrow_at(s, i + 1));
        assert(sym_at(s, i + 1) == Some((Sym::Join(0), i + 4)));
        assert(symbols_from(s, i + 4) == symbols_from(s, i + 5));
    } else {
        assert(sym_at(s, i + 1) == Some((Sym::Join(k as u8), i + 2)));
        assert(symbols_from(s, i + 2) == symbols_from(s, i + 3));
    }
}

/// Where the name that goes on at `j` ends.
proof fn lemma_name_goes(s: Seq<char>, i: int, name: Seq<char>, j: int)
    requires
        plain_name(name),
        stands(s, i, name),
        ends_name(s, i + name.len()),
        1 <= j <= name.len(),
    ensures
        name_end(s, i + j) == i + name.len(),
    decreases name.len() - j,
{
    if j < name.len() {
        assert(s.subrange(i, i + name.len())[j] == name[j]);
        lemma_name_goes(s, i, name, j + 1);
    }
}

/// The symbols of a text that holds the text of a formula.
proof fn lemma_lexed(s: Seq<char>, i: int, p: Prop, full: bool)
    requires
        plain(p),
        stands(s, i, text(p, full)),
        ends_name(s, i + text(p, full).len()),
    ensures
        symbols_from(s, i) == before(
            spelled(p, full),
            symbols_from(s, i + text(p, full).len()),
        ),
    decreases p, 0int,
{
    let end = i + text(p, full).len();
    match p {
        Prop::Atom(name) => {
            lemma_name_goes(s, i, name, 1);
            assert(s.subrange(i, end)[0] == name[0]);
            assert(sym_at(s, i) == Some((Sym::Name(name), end)));
        },
        Prop::Contradiction => {
            reveal_strlit("#");
            lemma_single(s, i, "#"@, Sym::Falsum);
        },
        Prop::Not(a) => {
            reveal_strlit("~");
            lemma_stands(s, i, "~"@, part_text(*a, 3, full));
            lemma_single(s, i, "~"@, Sym::Neg);
            lemma_part_lexed(s, i + 1, *a, 3, full);
            lemma_before(
                seq![Sym::Neg],
                part_spelled(*a, 3, full),
                symbols_from(s, end),
            );
        },
        Prop::And(a, b) | Prop::Or(a, b) | Prop::Implies(a, b) | Prop::Biconditional(a, b) => {
            let k = binding(p);
            let (x, y) = (part_text(*a, k, full), part_text(*b, k, full));
            reveal_strlit(" . ");
            reveal_strlit(" v ");
            reveal_strlit(" > ");
            reveal_strlit(" <-> ");
            lemma_stands(s, i, x + connective(k), y);
            lemma_stands(s, i, x, connective(k));
            let j = i + x.len();
            assert(s[j] == ' ');
            lemma_part_lexed(s, i, *a, k, full);
            lemma_connective(s, j, k);
            lemma_part_lexed(s, j + connective(k).len(), *b, k, full);
            let rest = symbols_from(s, end);
            let (u, v) = (part_spelled(*a, k, full), part_spelled(*b, k, full));
            lemma_before(seq![Sym::Join(k as u8)], v, rest);
            lemma_before(u, seq![Sym::Join(k as u8)] + v, rest);
            assert(u + (seq![Sym::Join(k as u8)] + v) =~= spelled(p, full));
        },
    }
}

/// [`lemma_lexed`] for a part.
proof fn lemma_part_lexed(s: Seq<char>, i: int, p: Prop, limit: int, full: bool)
    requires
        plain(p),
        stands(s, i, part_text(p, limit, full)),
        ends_name(s, i + part_text(p, limit, full).len()),
    ensures
        symbols_from(s, i) == before(
            part_spelled(p, limit, full),
            symbols_from(s, i + part_text(p, limit, full).len()),
        ),
    decreases p, 1int,
{
    if wrapped(p, limit, full) {
        let k = kind(p, full);
        let (o, c) = (opening(k), closing(k));
        let t = text(p, full);
        reveal_strlit("(");
        reveal_strlit("[");
        reveal_strlit("{");
        reveal_strlit(")");
        reveal_strlit("]");
        reveal_strlit("}");
        lemma_stands(s, i, o + t, c);
        lemma_stands(s, i, o, t);
        let j = i + 1 + t.len();
        lemma_single(s, i, o, Sym::Open(k));
        lemma_lexed(s, i + 1, p, full);
        lemma_single(s, j, c, Sym::Close(k));
        let rest = symbols_from(s, j + 1);
        let u = spelled(p, full);
        lemma_before(u, seq![Sym::Close(k)], rest);
        lemma_before(seq![Sym::Open(k)], u + seq![Sym::Close(k)], rest);
        assert(seq![Sym::Open(k)] + (u + seq![Sym::Close(k)]) =~= part_spelled(p, limit, full));
    } else {
        lemma_lexed(s, i, p, full);
    }
}

/// What stands before what stands before the rest.
proof fn lemma_before(t: Seq<Sym>, u: Seq<Sym>, rest: Option<Seq<Sym>>)
    ensures
        before(t, before(u, rest)) == before(t + u, rest),
{
    if rest is Some {
        assert(t + (u + rest->0) =~= (t + u) + rest->0);
    }
}

/// Whether the symbols `t` stand at `i`.
spec fn holds(ts: Seq<Sym>, i: int, t: Seq<Sym>) -> bool {
    &&& 0 <= i
    &&& i + t.len() <= ts.len()
    &&& ts.subrange(i, i + t.len()) == t
}

/// Two lists of symbols, one after the other.
proof fn lemma_holds(ts: Seq<Sym>, i: int, t: Seq<Sym>, u: Seq<Sym>)
    requires
        holds(ts, i, t + u),
    ensures
        holds(ts, i, t),
        holds(ts, i + t.len(), u),
        u.len() > 0 ==> ts[i + t.len()] == u[0],
        t.len() > 0 ==> ts[i] == t[0],
{
    let whole = ts.subrange(i, i + (t + u).len());
    assert(ts.subrange(i, i + t.len()) =~= t) by {
        assert forall|j: int| 0 <= j < t.len() implies ts[i + j] == t[j] by {
            assert(whole[j] == (t + u)[j]);
        }
    }
    assert(ts.subrange(i + t.len(), i + t.len() + u.len()) =~= u) by {
        assert forall|j: int| 0 <= j < u.len() implies ts[i + t.len() + j] == u[j] by {
            assert(whole[t.len() + j] == (t + u)[t.len() + j]);
        }
    }
    if u.len() > 0 {
        assert(ts.subrange(i + t.len(), i + t.len() + u.len())[0] == u[0]);
    }
    if t.len() > 0 {
        assert(ts.subrange(i, i + t.len())[0] == t[0]);
    }
}

/// Whether no connective that binds at least as tightly as `k` stands at `i`.
spec fn settled(ts: Seq<Sym>, i: int, k: int) -> bool {
    i < ts.len() ==> !(ts[i] matches Sym::Join(m) && m >= k)
}

/// A spelling is not empty.
proof fn lemma_spelled_some(p: Prop, limit: int, full: bool)
    ensures
        spelled(p, full).len() > 0,
        part_spelled(p, limit, full).len() > 0,
{
}

/// A formula that is read where all connectives bind more tightly is also read where
/// looser ones may follow, if none does.
proof fn lemma_read_looser(ts: Seq<Sym>, i: int, p: Prop, j: int, high: int, k: int)
    requires
        0 <= k <= high <= 4,
        read(ts, i, high) == Some((p, j)),
        0 <= i < j <= ts.len(),
        settled(ts, j, k),
    ensures
        read(ts, i, k) == Some((p, j)),
    decreases high - k,
{
    if k < high {
        lemma_read_looser(ts, i, p, j, high, k + 1);
        assert(read_more(ts, j, k, p) == Some((p, j)));
    }
}

/// A spelled formula is read.
proof fn lemma_read(ts: Seq<Sym>, i: int, p: Prop, k: int, full: bool)
    requires
        holds(ts, i, spelled(p, full)),
        0 <= k <= 4,
        k <= binding(p),
        settled(ts, i + spelled(p, full).len(), k),
    ensures
        read(ts, i, k) == Some((p, i + spelled(p, full).len())),
    decreases p, 0int,
{
    let j = i + spelled(p, full).len();
    lemma_spelled_some(p, 0, full);
    match p {
        Prop::Atom(name) => {
            assert(ts.subrange(i, j)[0] == Sym::Name(name));
            lemma_read_looser(ts, i, p, j, 4, k);
        },
        Prop::Contradiction => {
            assert(ts.subrange(i, j)[0] == Sym::Falsum);
            lemma_read_looser(ts, i, p, j, 4, k);
        },
        Prop::Not(a) => {
            lemma_holds(ts, i, seq![Sym::Neg], part_spelled(*a, 3, full));
            lemma_part_read(ts, i + 1, *a, 3, full);
            lemma_read_looser(ts, i, p, j, 4, k);
        },
        Prop::And(a, b) | Prop::Or(a, b) | Prop::Implies(a, b) | Prop::Biconditional(a, b) => {
            let m = binding(p);
            let (u, v) = (part_spelled(*a, m, full), part_spelled(*b, m, full));
            let o = seq![Sym::Join(m as u8)];
            lemma_holds(ts, i, u + o, v);
            lemma_holds(ts, i, u, o);
            lemma_spelled_some(*a, m, full);
            lemma_spelled_some(*b, m, full);
            let mid = i + u.len();
            lemma_part_read(ts, i, *a, m, full);
            lemma_part_read(ts, mid + 1, *b, m, full);
            assert(read_more(ts, j, m, p) == Some((p, j)));
            assert(joined(m, *a, *b) == p);
            assert(read_more(ts, mid, m, *a) == Some((p, j)));
            assert(read(ts, i, m) == Some((p, j)));
            lemma_read_looser(ts, i, p, j, m, k);
        },
    }
}

/// [`lemma_read`] for a part.
proof fn lemma_part_read(ts: Seq<Sym>, i: int, p: Prop, limit: int, full: bool)
    requires
        holds(ts, i, part_spelled(p, limit, full)),
        0 <= limit <= 3,
        settled(ts, i + part_spelled(p, limit, full).len(), limit + 1),
    ensures
        read(ts, i, limit + 1) == Some((p, i + part_spelled(p, limit, full).len())),
    decreases p, 1int,
{
    if wrapped(p, limit, full) {
        let k = kind(p, full);
        let u = spelled(p, full);
        let (o, c) = (seq![Sym::Open(k)], seq![Sym::Close(k)]);
        lemma_holds(ts, i, o + u, c);
        lemma_holds(ts, i, o, u);
        lemma_spelled_some(p, limit, full);
        lemma_read(ts, i + 1, p, 0, full);
        let j = i + 1 + u.len();
        assert(ts[i] == Sym::Open(k));
        assert(ts[j] == Sym::Close(k));
        assert(read(ts, i, 4) == Some((p, j + 1)));
        lemma_read_looser(ts, i, p, j + 1, 4, limit + 1);
    } else {
        lemma_read(ts, i, p, limit + 1, full);
    }
}

/// The text of a formula in either style is read as the formula.
proof fn lemma_text_read(p: Prop, full: bool)
    requires
        plain(p),
    ensures
        parsed(text(p, full)) == Ok::<Prop, ParseError>(p),
{
    let s = text(p, full);
    assert(s.subrange(0, s.len() as int) =~= s);
    lemma_lexed(s, 0, p, full);
    let ts = spelled(p, full);
    assert(ts + Seq::<Sym>::empty() =~= ts);
    assert(symbols(s) == Some(ts));
    assert(ts.subrange(0, ts.len() as int) =~= ts);
    lemma_read(ts, 0, p, 0, full);
}

/// Reading undoes writing, in both styles.
pub proof fn law_written_is_read(p: Prop)
    requires
        plain(p),
    ensures
        parsed(ascii(p)) == Ok::<Prop, ParseError>(p),
        parsed(bracketed(p)) == Ok::<Prop, ParseError>(p),
{
    lemma_styles(p);
    lemma_text_read(p, false);
    lemma_text_read(p, true);
}

/// Different formulas have different texts.
pub proof fn law_texts_differ(p: Prop, q: Prop)
    requires
        plain(p),
        plain(q),
        p != q,
    ensures
        ascii(p) != ascii(q),
        bracketed(p) != bracketed(q),
{
    law_written_is_read(p);
    law_written_is_read(q);
}

/// How tightly a formula holds together: the connectives loosest, a negation tighter, and
/// what has no parts tightest.
pub open spec fn hold(p: Prop) -> int {
    match p {
        Prop::Biconditional(_, _) => 0,
        Prop::Implies(_, _) => 1,
        Prop::Or(_, _) => 2,
        Prop::And(_, _) => 3,
        Prop::Not(_) => 4,
        _ => 5,
    }
}

/// Parentheses are written where they are needed: a side of a connective has them unless it
/// holds together more tightly than the connective, and what is negated has them where it
/// joins two formulas.
pub proof fn law_parentheses(k: int, a: Prop, b: Prop)
    requires
        0 <= k <= 3,
    ensures
        ({
            let left = if hold(a) > k {
                ascii(a)
            } else {
                "("@ + ascii(a) + ")"@
            };
            let right = if hold(b) > k {
                ascii(b)
            } else {
                "("@ + ascii(b) + ")"@
            };
            &&& k == 3 ==> ascii(tied(3, a, b)) == left + " . "@ + right
            &&& k == 2 ==> ascii(tied(2, a, b)) == left + " v "@ + right
            &&& k == 1 ==> ascii(tied(1, a, b)) == left + " > "@ + right
            &&& k == 0 ==> ascii(tied(0, a, b)) == left + " <-> "@ + right
        }),
        hold(a) > 3 ==> ascii(p_not(a)) == "~"@ + ascii(a),
        hold(a) <= 3 ==> ascii(p_not(a)) == "~"@ + ("("@ + ascii(a) + ")"@),
{
}

/// How deep what has brackets nests, with no bound.
pub open spec fn nesting(p: Prop) -> nat
    decreases p,
{
    match p {
        Prop::Atom(_) | Prop::Contradiction => 0,
        Prop::Not(a) => if nesting(*a) == 0 {
            0
        } else {
            nesting(*a) + 1
        },
        Prop::And(a, b) | Prop::Or(a, b) | Prop::Implies(a, b) | Prop::Biconditional(a, b) => {
            if nesting(*a) < nesting(*b) {
                nesting(*b) + 1
            } else {
                nesting(*a) + 1
            }
        },
    }
}

/// The brackets of a part go by how deep it nests: round ones innermost, square ones round
/// them, and curly ones round all that is deeper.
pub proof fn law_bracket_kinds(p: Prop)
    ensures
        hold(p) > 3 ==> bracketed(p_not(p)) == "~"@ + bracketed(p),
        hold(p) <= 3 && nesting(p) == 1 ==> bracketed(p_not(p)) == "~"@ + ("("@ + bracketed(p)
            + ")"@),
        hold(p) <= 3 && nesting(p) == 2 ==> bracketed(p_not(p)) == "~"@ + ("["@ + bracketed(p)
            + "]"@),
        hold(p) <= 3 && nesting(p) >= 3 ==> bracketed(p_not(p)) == "~"@ + ("{"@ + bracketed(p)
            + "}"@),
{
    lemma_nesting(p);
}

/// A part is bracketed the same way wherever it stands.
pub proof fn law_bracketed_sides(a: Prop, b: Prop)
    ensures
        "~"@ + bracketed(p_and(a, b)) == bracketed(p_not(a)) + " . "@ + bracketed(
            p_not(b),
        ).drop_first(),
        "~"@ + bracketed(p_or(a, b)) == bracketed(p_not(a)) + " v "@ + bracketed(
            p_not(b),
        ).drop_first(),
        "~"@ + bracketed(p_implies(a, b)) == bracketed(p_not(a)) + " > "@ + bracketed(
            p_not(b),
        ).drop_first(),
        "~"@ + bracketed(p_iff(a, b)) == bracketed(p_not(a)) + " <-> "@ + bracketed(
            p_not(b),
        ).drop_first(),
{
    reveal_strlit("~");
    let (u, v) = (bracket(a, bracketed(a)), bracket(b, bracketed(b)));
    assert(bracketed(p_not(a)) == "~"@ + u);
    assert(bracketed(p_not(b)).drop_first() =~= v);
    assert("~"@ + (u + " . "@ + v) =~= ("~"@ + u) + " . "@ + v);
    assert("~"@ + (u + " v "@ + v) =~= ("~"@ + u) + " v "@ + v);
    assert("~"@ + (u + " > "@ + v) =~= ("~"@ + u) + " > "@ + v);
    assert("~"@ + (u + " <-> "@ + v) =~= ("~"@ + u) + " <-> "@ + v);
}

/// Nesting is counted up to three.
proof fn lemma_nesting(p: Prop)
    ensures
        bracket_level(p) == if nesting(p) < 3 {
            nesting(p) as int
        } else {
            3
        },
    decreases p,
{
    match p {
        Prop::Atom(_) | Prop::Contradiction => {},
        Prop::Not(a) => lemma_nesting(*a),
        Prop::And(a, b) | Prop::Or(a, b) | Prop::Implies(a, b) | Prop::Biconditional(a, b) => {
            lemma_nesting(*a);
            lemma_nesting(*b);
        },
    }
}

/// Blanks.
pub open spec fn blanks(n: nat) -> Seq<char> {
    Seq::new(n, |i: int| ' ')
}

/// Whether a text is a spelling of a connective: `.` or `&`, `v` or `|`, `>`, `<->`, from
/// the tightest to the loosest.
pub open spec fn spells(t: Seq<char>, k: int) -> bool {
    ||| k == 3 && (t == "."@ || t == "&"@)
    ||| k == 2 && (t == "v"@ || t == "|"@)
    ||| k == 1 && t == ">"@
    ||| k == 0 && t == "<->"@
}

/// Two formulas and the connective of a binding between them.
pub open spec fn tied(k: int, a: Prop, b: Prop) -> Prop {
    if k == 3 {
        p_and(a, b)
    } else if k == 2 {
        p_or(a, b)
    } else if k == 1 {
        p_implies(a, b)
    } else {
        p_iff(a, b)
    }
}

/// The text of a formula in brackets of a kind.
pub open spec fn operand(b: u8, p: Prop) -> Seq<char> {
    opening(b) + ascii(p) + closing(b)
}

/// Formulas in brackets, one after the other, with a text between each two.
pub open spec fn chain_text(b: u8, sep: Seq<char>, ps: Seq<Prop>) -> Seq<char>
    decreases ps.len(),
{
    if ps.len() <= 1 {
        operand(b, ps[0])
    } else {
        chain_text(b, sep, ps.drop_last()) + sep + operand(b, ps.last())
    }
}

/// Formulas joined one after the other, from the left.
pub open spec fn chained(k: int, ps: Seq<Prop>) -> Prop
    decreases ps.len(),
{
    if ps.len() <= 1 {
        ps[0]
    } else {
        tied(k, chained(k, ps.drop_last()), ps.last())
    }
}

/// The symbols of [`operand`].
spec fn operand_symbols(b: u8, p: Prop) -> Seq<Sym> {
    seq![Sym::Open(b)] + spelled(p, false) + seq![Sym::Close(b)]
}

/// The symbols of [`chain_text`].
spec fn chain_symbols(b: u8, k: int, ps: Seq<Prop>) -> Seq<Sym>
    decreases ps.len(),
{
    if ps.len() <= 1 {
        operand_symbols(b, ps[0])
    } else {
        chain_symbols(b, k, ps.drop_last()) + seq![Sym::Join(k as u8)] + operand_symbols(
            b,
            ps.last(),
        )
    }
}

/// Blanks are passed over.
proof fn lemma_blanks(s: Seq<char>, i: int, n: nat)
    requires
        stands(s, i, blanks(n)),
    ensures
        symbols_from(s, i) == symbols_from(s, i + n),
    decreases n,
{
    if n > 0 {
        assert(s.subrange(i, i + n)[0] == ' ');
        let rest = s.subrange(i + 1, i + n);
        assert forall|j: int| 0 <= j < n - 1 implies #[trigger] rest[j] == ' ' by {
            assert(s.subrange(i, i + n)[j + 1] == ' ');
        }
        assert(rest =~= blanks((n - 1) as nat));
        lemma_blanks(s, i + 1, (n - 1) as nat);
    }
}

/// The symbol of a connective among blanks.
proof fn lemma_separator(s: Seq<char>, i: int, k: int, before_it: nat, core: Seq<char>, after: nat)
    requires
        spells(core, k),
        stands(s, i, blanks(before_it) + core + blanks(after)),
    ensures
        symbols_from(s, i) == before(
            seq![Sym::Join(k as u8)],
            symbols_from(s, i + (blanks(before_it) + core + blanks(after)).len()),
        ),
{
    let (u, v) = (blanks(before_it), blanks(after));
    lemma_stands(s, i, u + core, v);
    lemma_stands(s, i, u, core);
    lemma_blanks(s, i, before_it);
    let j = i + before_it;
    reveal_strlit(".");
    reveal_strlit("&");
    reveal_strlit("v");
    reveal_strlit("|");
    reveal_strlit(">");
    reveal_strlit("<->");
    if k == 0 {
        assert(s.subrange(j, j + 3)[0] == core[0]);
        assert(s.subrange(j, j + 3)[1] == core[1]);
        assert(s.subrange(j, j + 3)[2] == core[2]);
        assert(arrow_at(s, j));
        assert(sym_at(s, j) == Some((Sym::Join(0), j + 3)));
    } else {
        lemma_single(s, j, core, Sym::Join(k as u8));
    }
    lemma_blanks(s, j + core.len(), after);
}

/// The symbols of a formula in brackets.
proof fn lemma_operand_lexed(s: Seq<char>, i: int, b: u8, p: Prop)
    requires
        b <= 2,
        plain(p),
        stands(s, i, operand(b, p)),
    ensures
        symbols_from(s, i) == before(
            operand_symbols(b, p),
            symbols_from(s, i + operand(b, p).len()),
        ),
{
    reveal_strlit("(");
    reveal_strlit("[");
    reveal_strlit("{");
    reveal_strlit(")");
    reveal_strlit("]");
    reveal_strlit("}");
    lemma_styles(p);
    let (o, t, c) = (opening(b), text(p, false), closing(b));
    lemma_stands(s, i, o + t, c);
    lemma_stands(s, i, o, t);
    let j = i + 1 + t.len();
    lemma_single(s, i, o, Sym::Open(b));
    lemma_lexed(s, i + 1, p, false);
    lemma_single(s, j, c, Sym::Close(b));
    let rest = symbols_from(s, j + 1);
    lemma_before(spelled(p, false), seq![Sym::Close(b)], rest);
    lemma_before(seq![Sym::Open(b)], spelled(p, false) + seq![Sym::Close(b)], rest);
    assert(seq![Sym::Open(b)] + (spelled(p, false) + seq![Sym::Close(b)]) =~= operand_symbols(
        b,
        p,
    ));
}

/// The symbols of a chain.
proof fn lemma_chain_lexed(
    s: Seq<char>,
    i: int,
    b: u8,
    k: int,
    before_it: nat,
    core: Seq<char>,
    after: nat,
    ps: Seq<Prop>,
)
    requires
        b <= 2,
        ps.len() > 0,
        forall|m: int| 0 <= m < ps.len() ==> plain(#[trigger] ps[m]),
        spells(core, k),
        stands(s, i, chain_text(b, blanks(before_it) + core + blanks(after), ps)),
    ensures
        symbols_from(s, i) == before(
            chain_symbols(b, k, ps),
            symbols_from(
                s,
                i + chain_text(b, blanks(before_it) + core + blanks(after), ps).len(),
            ),
        ),
    decreases ps.len(),
{
    let sep = blanks(before_it) + core + blanks(after);
    if ps.len() == 1 {
        assert(plain(ps[0]));
        lemma_operand_lexed(s, i, b, ps[0]);
    } else {
        let t = ps.drop_last();
        assert(plain(ps[ps.len() - 1]));
        assert forall|m: int| 0 <= m < t.len() implies plain(#[trigger] t[m]) by {
            assert(t[m] == ps[m]);
        }
        let u = chain_text(b, sep, t);
        let v = operand(b, ps.last());
        lemma_stands(s, i, u + sep, v);
        lemma_stands(s, i, u, sep);
        lemma_chain_lexed(s, i, b, k, before_it, core, after, t);
        let j = i + u.len();
        lemma_separator(s, j, k, before_it, core, after);
        lemma_operand_lexed(s, j + sep.len(), b, ps.last());
        let rest = symbols_from(s, j + sep.len() + v.len());
        let join = seq![Sym::Join(k as u8)];
        let last = operand_symbols(b, ps.last());
        lemma_before(join, last, rest);
        lemma_before(chain_symbols(b, k, t), join + last, rest);
        assert(chain_symbols(b, k, t) + (join + last) =~= chain_symbols(b, k, ps));
    }
}

/// A formula in brackets is read where any connectives may be.
proof fn lemma_operand_read(ts: Seq<Sym>, i: int, b: u8, p: Prop, k: int)
    requires
        holds(ts, i, operand_symbols(b, p)),
        0 <= k <= 4,
        settled(ts, i + operand_symbols(b, p).len(), k),
    ensures
        read(ts, i, k) == Some((p, i + operand_symbols(b, p).len())),
{
    let u = spelled(p, false);
    lemma_holds(ts, i, seq![Sym::Open(b)] + u, seq![Sym::Close(b)]);
    lemma_holds(ts, i, seq![Sym::Open(b)], u);
    lemma_spelled_some(p, 0, false);
    let j = i + 1 + u.len();
    assert(ts[j] == Sym::Close(b));
    lemma_read(ts, i + 1, p, 0, false);
    assert(read(ts, i, 4) == Some((p, j + 1)));
    lemma_read_looser(ts, i, p, j + 1, 4, k);
}

/// A chain is read from the left.
proof fn lemma_chain_read(ts: Seq<Sym>, b: u8, k: int, ps: Seq<Prop>)
    requires
        0 <= k <= 3,
        ps.len() > 0,
        holds(ts, 0, chain_symbols(b, k, ps)),
        settled(ts, chain_symbols(b, k, ps).len() as int, k + 1),
    ensures
        read(ts, 0, k) == read_more(
            ts,
            chain_symbols(b, k, ps).len() as int,
            k,
            chained(k, ps),
        ),
    decreases ps.len(),
{
    if ps.len() == 1 {
        lemma_operand_read(ts, 0, b, ps[0], k + 1);
    } else {
        let t = ps.drop_last();
        let (u, join, v) = (
            chain_symbols(b, k, t),
            seq![Sym::Join(k as u8)],
            operand_symbols(b, ps.last()),
        );
        lemma_holds(ts, 0, u + join, v);
        lemma_holds(ts, 0, u, join);
        lemma_chain_read(ts, b, k, t);
        lemma_operand_read(ts, u.len() as int + 1, b, ps.last(), k + 1);
        assert(joined(k, chained(k, t), ps.last()) == chained(k, ps));
    }
}

/// Connectives of one kind are read from the left, however many there are, however each is
/// spelled and whatever blanks stand round it, and brackets of all three kinds are read.
pub proof fn law_chain_read(
    b: u8,
    k: int,
    before_it: nat,
    core: Seq<char>,
    after: nat,
    ps: Seq<Prop>,
)
    requires
        b <= 2,
        spells(core, k),
        ps.len() > 0,
        forall|m: int| 0 <= m < ps.len() ==> plain(#[trigger] ps[m]),
    ensures
        parsed(chain_text(b, blanks(before_it) + core + blanks(after), ps)) == Ok::<
            Prop,
            ParseError,
        >(chained(k, ps)),
{
    let s = chain_text(b, blanks(before_it) + core + blanks(after), ps);
    let ts = chain_symbols(b, k, ps);
    assert(s.subrange(0, s.len() as int) =~= s);
    lemma_chain_lexed(s, 0, b, k, before_it, core, after, ps);
    assert(ts + Seq::<Sym>::empty() =~= ts);
    assert(symbols(s) == Some(ts));
    assert(ts.subrange(0, ts.len() as int) =~= ts);
    lemma_chain_read(ts, b, k, ps);
    let p = chained(k, ps);
    let n = ts.len() as int;
    assert(read(ts, 0, k) == Some((p, n)));
    assert(n > 0);
    lemma_read_looser(ts, 0, p, n, k, 0);
}

/// A negation is read with either mark, as often as it stands there.
pub proof fn law_negations_read(mark: Seq<char>, n: nat, p: Prop)
    requires
        mark == "~"@ || mark == "!"@,
        plain(p),
    ensures
        parsed(marked(mark, n, operand(0, p))) == Ok::<Prop, ParseError>(negated(n, p)),
{
    let s = marked(mark, n, operand(0, p));
    assert(s.subrange(0, s.len() as int) =~= s);
    lemma_marked_lexed(s, 0, mark, n, p);
    let ts = marked_symbols(n, p);
    assert(ts + Seq::<Sym>::empty() =~= ts);
    assert(symbols(s) == Some(ts));
    assert(ts.subrange(0, ts.len() as int) =~= ts);
    lemma_marked_read(ts, 0, n, p);
    lemma_read_looser(ts, 0, negated(n, p), ts.len() as int, 4, 0);
}

/// A text with a mark in front so many times.
pub open spec fn marked(mark: Seq<char>, n: nat, t: Seq<char>) -> Seq<char>
    decreases n,
{
    if n == 0 {
        t
    } else {
        mark + marked(mark, (n - 1) as nat, t)
    }
}

/// A formula negated so many times.
pub open spec fn negated(n: nat, p: Prop) -> Prop
    decreases n,
{
    if n == 0 {
        p
    } else {
        p_not(negated((n - 1) as nat, p))
    }
}

/// The symbols of a formula in brackets with so many negations in front.
spec fn marked_symbols(n: nat, p: Prop) -> Seq<Sym>
    decreases n,
{
    if n == 0 {
        operand_symbols(0, p)
    } else {
        seq![Sym::Neg] + marked_symbols((n - 1) as nat, p)
    }
}

/// The symbols of [`marked`].
proof fn lemma_marked_lexed(s: Seq<char>, i: int, mark: Seq<char>, n: nat, p: Prop)
    requires
        mark == "~"@ || mark == "!"@,
        plain(p),
        stands(s, i, marked(mark, n, operand(0, p))),
    ensures
        symbols_from(s, i) == before(
            marked_symbols(n, p),
            symbols_from(s, i + marked(mark, n, operand(0, p)).len()),
        ),
    decreases n,
{
    if n == 0 {
        lemma_operand_lexed(s, i, 0, p);
    } else {
        reveal_strlit("~");
        reveal_strlit("!");
        let t = marked(mark, (n - 1) as nat, operand(0, p));
        lemma_stands(s, i, mark, t);
        lemma_single(s, i, mark, Sym::Neg);
        lemma_marked_lexed(s, i + 1, mark, (n - 1) as nat, p);
        lemma_before(
            seq![Sym::Neg],
            marked_symbols((n - 1) as nat, p),
            symbols_from(s, i + 1 + t.len()),
        );
    }
}

/// Negations are read.
proof fn lemma_marked_read(ts: Seq<Sym>, i: int, n: nat, p: Prop)
    requires
        holds(ts, i, marked_symbols(n, p)),
        settled(ts, i + marked_symbols(n, p).len(), 4),
    ensures
        marked_symbols(n, p).len() > 0,
        read(ts, i, 4) == Some((negated(n, p), i + marked_symbols(n, p).len())),
    decreases n,
{
    if n == 0 {
        lemma_operand_read(ts, i, 0, p, 4);
    } else {
        let t = marked_symbols((n - 1) as nat, p);
        lemma_holds(ts, i, seq![Sym::Neg], t);
        lemma_marked_read(ts, i + 1, (n - 1) as nat, p);
    }
}

/// The symbols of a list that are no brackets.
pub open spec fn bare(ts: Seq<Sym>) -> Seq<Sym>
    decreases ts.len(),
{
    if ts.len() == 0 {
        seq![]
    } else if ts.last() is Open || ts.last() is Close {
        bare(ts.drop_last())
    } else {
        bare(ts.drop_last()).push(ts.last())
    }
}

/// How many opening brackets of a kind there are, less the closing ones.
pub open spec fn surplus(ts: Seq<Sym>, b: u8) -> int
    decreases ts.len(),
{
    if ts.len() == 0 {
        0
    } else {
        surplus(ts.drop_last(), b) + if ts.last() == Sym::Open(b) {
            1int
        } else if ts.last() == Sym::Close(b) {
            -1
        } else {
            0
        }
    }
}

/// The names, constants and connectives of a formula, in the order in which they are
/// written.
pub open spec fn marks(p: Prop) -> Seq<Sym>
    decreases p,
{
    match p {
        Prop::Atom(name) => seq![Sym::Name(name)],
        Prop::Contradiction => seq![Sym::Falsum],
        Prop::Not(a) => seq![Sym::Neg] + marks(*a),
        Prop::And(a, b) => marks(*a) + seq![Sym::Join(3)] + marks(*b),
        Prop::Or(a, b) => marks(*a) + seq![Sym::Join(2)] + marks(*b),
        Prop::Implies(a, b) => marks(*a) + seq![Sym::Join(1)] + marks(*b),
        Prop::Biconditional(a, b) => marks(*a) + seq![Sym::Join(0)] + marks(*b),
    }
}

/// Joined lists.
proof fn lemma_bare_joined(a: Seq<Sym>, b: Seq<Sym>, kind: u8)
    ensures
        bare(a + b) == bare(a) + bare(b),
        surplus(a + b, kind) == surplus(a, kind) + surplus(b, kind),
    decreases b.len(),
{
    if b.len() == 0 {
        assert(a + b =~= a);
        assert(bare(a) + bare(b) =~= bare(a));
    } else {
        assert((a + b).drop_last() =~= a + b.drop_last());
        assert((a + b).last() == b.last());
        lemma_bare_joined(a, b.drop_last(), kind);
        assert(bare(a + b) =~= bare(a) + bare(b));
    }
}

/// What stands from one position to a later one, in two parts.
proof fn lemma_bare_split(ts: Seq<Sym>, i: int, m: int, j: int, kind: u8)
    requires
        0 <= i <= m <= j <= ts.len(),
    ensures
        bare(ts.subrange(i, j)) == bare(ts.subrange(i, m)) + bare(ts.subrange(m, j)),
        surplus(ts.subrange(i, j), kind) == surplus(ts.subrange(i, m), kind) + surplus(
            ts.subrange(m, j),
            kind,
        ),
{
    assert(ts.subrange(i, j) =~= ts.subrange(i, m) + ts.subrange(m, j));
    lemma_bare_joined(ts.subrange(i, m), ts.subrange(m, j), kind);
}

/// One symbol.
proof fn lemma_bare_one(ts: Seq<Sym>, i: int, kind: u8)
    requires
        0 <= i < ts.len(),
    ensures
        bare(ts.subrange(i, i + 1)) == if ts[i] is Open || ts[i] is Close {
            Seq::<Sym>::empty()
        } else {
            seq![ts[i]]
        },
        surplus(ts.subrange(i, i + 1), kind) == if ts[i] == Sym::Open(kind) {
            1int
        } else if ts[i] == Sym::Close(kind) {
            -1
        } else {
            0
        },
{
    let t = ts.subrange(i, i + 1);
    assert(t.drop_last() =~= Seq::<Sym>::empty());
    assert(t.last() == ts[i]);
    assert(bare(t.drop_last()) == Seq::<Sym>::empty());
    assert(surplus(t.drop_last(), kind) == 0);
    assert(Seq::<Sym>::empty().push(ts[i]) =~= seq![ts[i]]);
}

/// What is read is all that stands there.
proof fn lemma_read_whole(ts: Seq<Sym>, i: int, k: int, kind: u8)
    ensures
        read(ts, i, k) matches Some((p, j)) ==> 0 <= i < j <= ts.len() && bare(ts.subrange(i, j))
            == marks(p) && surplus(ts.subrange(i, j), kind) == 0,
    decreases ts.len() - i, 5 - k, 0int,
{
    if i < 0 || i >= ts.len() || k < 0 {
    } else if k >= 4 {
        lemma_bare_one(ts, i, kind);
        match ts[i] {
            Sym::Neg => {
                lemma_read_whole(ts, i + 1, 4, kind);
                if let Some((p, j)) = read(ts, i + 1, 4) {
                    lemma_bare_split(ts, i, i + 1, j, kind);
                }
            },
            Sym::Open(b) => {
                lemma_read_whole(ts, i + 1, 0, kind);
                if let Some((p, j)) = read(ts, i + 1, 0) {
                    if i < j < ts.len() && ts[j] == Sym::Close(b) {
                        lemma_bare_split(ts, i, i + 1, j + 1, kind);
                        lemma_bare_split(ts, i + 1, j, j + 1, kind);
                        lemma_bare_one(ts, j, kind);
                        assert(bare(ts.subrange(i, j + 1)) =~= marks(p));
                    }
                }
            },
            _ => {},
        }
    } else {
        lemma_read_whole(ts, i, k + 1, kind);
        if let Some((p, j)) = read(ts, i, k + 1) {
            if i < j <= ts.len() {
                lemma_read_more_whole(ts, i, j, k, p, kind);
            }
        }
    }
}

/// [`lemma_read_whole`] for what follows a formula.
proof fn lemma_read_more_whole(ts: Seq<Sym>, start: int, i: int, k: int, left: Prop, kind: u8)
    requires
        0 <= start < i <= ts.len(),
        bare(ts.subrange(start, i)) == marks(left),
        surplus(ts.subrange(start, i), kind) == 0,
    ensures
        read_more(ts, i, k, left) matches Some((p, j)) ==> start < j <= ts.len() && bare(
            ts.subrange(start, j),
        ) == marks(p) && surplus(ts.subrange(start, j), kind) == 0,
    decreases ts.len() - i, 5 - k, 1int,
{
    if k < 0 || k > 3 || i < 0 {
    } else if i < ts.len() && ts[i] == Sym::Join(k as u8) {
        lemma_read_whole(ts, i + 1, k + 1, kind);
        if let Some((p, j)) = read(ts, i + 1, k + 1) {
            lemma_bare_one(ts, i, kind);
            lemma_bare_split(ts, start, i, j, kind);
            lemma_bare_split(ts, i, i + 1, j, kind);
            let whole = joined(k, left, p);
            assert(marks(left) + (seq![ts[i]] + marks(p)) =~= marks(whole));
            lemma_read_more_whole(ts, start, j, k, whole, kind);
        }
    }
}

/// Reading leaves nothing out and puts nothing in: the names, constants and connectives of
/// the text are those of the formula, in order, and brackets of each kind are closed as
/// often as they are opened.
pub proof fn law_read_whole(s: Seq<char>, b: u8)
    ensures
        parsed(s) matches Ok(p) ==> symbols(s) matches Some(ts) && bare(ts) == marks(p) && surplus(
            ts,
            b,
        ) == 0,
{
    if let Some(ts) = symbols(s) {
        lemma_read_whole(ts, 0, 0, b);
        assert(ts.subrange(0, ts.len() as int) =~= ts);
    }
}

/// Whether a character can stand in the text of a formula at all.
pub open spec fn legible(c: char) -> bool {
    ||| 'A' <= c <= 'Z'
    ||| 'a' <= c <= 'z'
    ||| '0' <= c <= '9'
    ||| "()[]{}~!.&|><-# "@.contains(c)
}

/// A text with a character that no formula holds is not read, and is told from a text that
/// merely makes no formula.
pub proof fn law_illegible(s: Seq<char>, i: int)
    requires
        0 <= i < s.len(),
        !legible(s[i]),
    ensures
        parsed(s) == Err::<Prop, ParseError>(ParseError::BadCharacter),
{
    lemma_illegible(s, 0, i);
}

/// [`law_illegible`] from a position on.
proof fn lemma_illegible(s: Seq<char>, from: int, i: int)
    requires
        0 <= from <= i < s.len(),
        !legible(s[i]),
    ensures
        symbols_from(s, from) is None,
    decreases s.len() - from,
{
    reveal_strlit("()[]{}~!.&|><-# ");
    let known = "()[]{}~!.&|><-# "@;
    assert(known[0] == '(' && known[1] == ')' && known[2] == '[' && known[3] == ']');
    assert(known[4] == '{' && known[5] == '}' && known[6] == '~' && known[7] == '!');
    assert(known[8] == '.' && known[9] == '&' && known[10] == '|' && known[11] == '>');
    assert(known[12] == '<' && known[13] == '-' && known[14] == '#' && known[15] == ' ');
    if s[from] == ' ' {
        lemma_illegible(s, from + 1, i);
    } else if starts_name(s[from]) {
        lemma_name_stops(s, from + 1, i);
        let j = name_end(s, from + 1);
        lemma_illegible(s, j, i);
    } else if arrow_at(s, from) {
        assert(from + 1 != i && from + 2 != i && from != i);
        lemma_illegible(s, from + 3, i);
    } else if from < i {
        lemma_illegible(s, from + 1, i);
    }
}

/// No name goes on past a character that no name holds.
proof fn lemma_name_stops(s: Seq<char>, from: int, i: int)
    requires
        0 <= from <= i < s.len(),
        !goes_on(s[i]),
    ensures
        from <= name_end(s, from) <= i,
    decreases s.len() - from,
{
    if goes_on(s[from]) {
        lemma_name_stops(s, from + 1, i);
    }
}

} // verus!
