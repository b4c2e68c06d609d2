//! Writing formulas as text.

use vstd::prelude::*;
use vstd::string::{StrSliceExecFns, StringExecFns};
use vstd::utf8::{encode_utf8, is_ascii_chars_encode_utf8};

use crate::models::formula::{Formula, Prop};

verus! {

/// How tightly the main connective binds: the higher, the tighter.
pub open spec fn binding(p: Prop) -> int {
    match p {
        Prop::Atom(_) | Prop::Contradiction => 5,
        Prop::Not(_) => 4,
        Prop::And(_, _) => 3,
        Prop::Or(_, _) => 2,
        Prop::Implies(_, _) => 1,
        Prop::Biconditional(_, _) => 0,
    }
}

/// `s`, in parentheses if `wrap`.
pub open spec fn paren_if(wrap: bool, s: Seq<char>) -> Seq<char> {
    if wrap {
        "("@ + s + ")"@
    } else {
        s
    }
}

/// The text of a formula, with parentheses where the binding of the connectives calls
/// for them.
pub open spec fn ascii(p: Prop) -> Seq<char>
    decreases p,
{
    match p {
        Prop::Atom(name) => name,
        Prop::Contradiction => "#"@,
        Prop::Not(a) => "~"@ + paren_if(binding(*a) <= 3, ascii(*a)),
        Prop::And(a, b) => paren_if(binding(*a) <= 3, ascii(*a)) + " . "@ + paren_if(
            binding(*b) <= 3,
            ascii(*b),
        ),
        Prop::Or(a, b) => paren_if(binding(*a) <= 2, ascii(*a)) + " v "@ + paren_if(
            binding(*b) <= 2,
            ascii(*b),
        ),
        Prop::Implies(a, b) => paren_if(binding(*a) <= 1, ascii(*a)) + " > "@ + paren_if(
            binding(*b) <= 1,
            ascii(*b),
        ),
        Prop::Biconditional(a, b) => paren_if(binding(*a) <= 0, ascii(*a)) + " <-> "@ + paren_if(
            binding(*b) <= 0,
            ascii(*b),
        ),
    }
}

/// How deep the brackets of a formula nest, three and more counting as three.
pub open spec fn bracket_level(p: Prop) -> int
    decreases p,
{
    match p {
        Prop::Atom(_) | Prop::Contradiction => 0,
        Prop::Not(a) => if bracket_level(*a) == 0 {
            0
        } else if bracket_level(*a) < 3 {
            bracket_level(*a) + 1
        } else {
            3
        },
        Prop::And(a, b) | Prop::Or(a, b) | Prop::Implies(a, b) | Prop::Biconditional(a, b) => {
            let m = if bracket_level(*a) < bracket_level(*b) {
                bracket_level(*b)
            } else {
                bracket_level(*a)
            };
            if m < 3 {
                m + 1
            } else {
                3
            }
        },
    }
}

/// Whether the main connective joins two formulas.
pub open spec fn is_binary(p: Prop) -> bool {
    binding(p) <= 3
}

/// `s`, the text of `p`, in the brackets of its level if `p` joins two formulas.
pub open spec fn bracket(p: Prop, s: Seq<char>) -> Seq<char> {
    if !is_binary(p) {
        s
    } else if bracket_level(p) <= 1 {
        "("@ + s + ")"@
    } else if bracket_level(p) == 2 {
        "["@ + s + "]"@
    } else {
        "{"@ + s + "}"@
    }
}

/// The text of a formula with every compound part bracketed: `()` innermost, then `[]`,
/// then `{}`.
pub open spec fn bracketed(p: Prop) -> Seq<char>
    decreases p,
{
    match p {
        Prop::Atom(name) => name,
        Prop::Contradiction => "#"@,
        Prop::Not(a) => "~"@ + bracket(*a, bracketed(*a)),
        Prop::And(a, b) => bracket(*a, bracketed(*a)) + " . "@ + bracket(*b, bracketed(*b)),
        Prop::Or(a, b) => bracket(*a, bracketed(*a)) + " v "@ + bracket(*b, bracketed(*b)),
        Prop::Implies(a, b) => bracket(*a, bracketed(*a)) + " > "@ + bracket(*b, bracketed(*b)),
        Prop::Biconditional(a, b) => bracket(*a, bracketed(*a)) + " <-> "@ + bracket(
            *b,
            bracketed(*b),
        ),
    }
}

/// How many bytes the text of a formula has.
pub open spec fn byte_size(p: Prop) -> nat {
    encode_utf8(ascii(p)).len()
}

/// How many bytes the text of a formula has in a place where connectives that bind no
/// tighter than `limit` are put in parentheses.
pub open spec fn guarded_size(p: Prop, limit: int) -> nat {
    if binding(p) <= limit {
        byte_size(p) + 2
    } else {
        byte_size(p)
    }
}

/// Encodings of joined texts are joined encodings.
proof fn lemma_encode_add(a: Seq<char>, b: Seq<char>)
    ensures
        encode_utf8(a + b) == encode_utf8(a) + encode_utf8(b),
    decreases a.len(),
{
    if a.len() == 0 {
        assert(a + b =~= b);
        assert(encode_utf8(a + b) =~= encode_utf8(a) + encode_utf8(b));
    } else {
        assert((a + b).drop_first() =~= a.drop_first() + b);
        lemma_encode_add(a.drop_first(), b);
        assert(encode_utf8(a + b) =~= encode_utf8(a) + encode_utf8(b));
    }
}

/// How many bytes the fixed parts of a text have.
proof fn lemma_fixed_sizes()
    ensures
        encode_utf8("("@).len() == 1,
        encode_utf8(")"@).len() == 1,
        encode_utf8("#"@).len() == 1,
        encode_utf8("~"@).len() == 1,
        encode_utf8(" . "@).len() == 3,
        encode_utf8(" v "@).len() == 3,
        encode_utf8(" > "@).len() == 3,
        encode_utf8(" <-> "@).len() == 5,
{
    reveal_strlit("(");
    reveal_strlit(")");
    reveal_strlit("#");
    reveal_strlit("~");
    reveal_strlit(" . ");
    reveal_strlit(" v ");
    reveal_strlit(" > ");
    reveal_strlit(" <-> ");
    is_ascii_chars_encode_utf8("("@);
    is_ascii_chars_encode_utf8(")"@);
    is_ascii_chars_encode_utf8("#"@);
    is_ascii_chars_encode_utf8("~"@);
    is_ascii_chars_encode_utf8(" . "@);
    is_ascii_chars_encode_utf8(" v "@);
    is_ascii_chars_encode_utf8(" > "@);
    is_ascii_chars_encode_utf8(" <-> "@);
}

/// How many bytes a part of a text has.
proof fn lemma_guarded_size(p: Prop, limit: int)
    ensures
        encode_utf8(paren_if(binding(p) <= limit, ascii(p))).len() == guarded_size(p, limit),
{
    lemma_fixed_sizes();
    if binding(p) <= limit {
        lemma_encode_add("("@ + ascii(p), ")"@);
        lemma_encode_add("("@, ascii(p));
    }
}

/// How many bytes two parts with a connective between them have.
proof fn lemma_joined_size(a: Prop, b: Prop, limit: int, connective: Seq<char>)
    ensures
        encode_utf8(
            paren_if(binding(a) <= limit, ascii(a)) + connective + paren_if(
                binding(b) <= limit,
                ascii(b),
            ),
        ).len() == guarded_size(a, limit) + encode_utf8(connective).len() + guarded_size(b, limit),
{
    let l = paren_if(binding(a) <= limit, ascii(a));
    let r = paren_if(binding(b) <= limit, ascii(b));
    lemma_guarded_size(a, limit);
    lemma_guarded_size(b, limit);
    lemma_encode_add(l + connective, r);
    lemma_encode_add(l, connective);
}

/// The byte size of a formula in terms of the sizes of its parts.
pub proof fn lemma_byte_size(p: Prop)
    ensures
        byte_size(p) == match p {
            Prop::Atom(name) => encode_utf8(name).len(),
            Prop::Contradiction => 1,
            Prop::Not(a) => 1 + guarded_size(*a, 3),
            Prop::And(a, b) => guarded_size(*a, 3) + 3 + guarded_size(*b, 3),
            Prop::Or(a, b) => guarded_size(*a, 2) + 3 + guarded_size(*b, 2),
            Prop::Implies(a, b) => guarded_size(*a, 1) + 3 + guarded_size(*b, 1),
            Prop::Biconditional(a, b) => guarded_size(*a, 0) + 5 + guarded_size(*b, 0),
        },
{
    lemma_fixed_sizes();
    match p {
        Prop::Atom(_) | Prop::Contradiction => {},
        Prop::Not(a) => {
            lemma_encode_add("~"@, paren_if(binding(*a) <= 3, ascii(*a)));
            lemma_guarded_size(*a, 3);
        },
        Prop::And(a, b) => lemma_joined_size(*a, *b, 3, " . "@),
        Prop::Or(a, b) => lemma_joined_size(*a, *b, 2, " v "@),
        Prop::Implies(a, b) => lemma_joined_size(*a, *b, 1, " > "@),
        Prop::Biconditional(a, b) => lemma_joined_size(*a, *b, 0, " <-> "@),
    }
}

impl Formula {
    fn binding(&self) -> (r: u8)
        ensures
            r == binding(self@),
    {
        match self {
            Formula::Atom(_) | Formula::Contradiction => 5,
            Formula::Not(_) => 4,
            Formula::And(_, _) => 3,
            Formula::Or(_, _) => 2,
            Formula::Implies(_, _) => 1,
            Formula::Biconditional(_, _) => 0,
        }
    }

    fn write_guarded(&self, out: &mut String, limit: u8)
        ensures
            final(out)@ == old(out)@ + paren_if(binding(self@) <= limit, ascii(self@)),
        decreases self, 1int,
    {
        let ghost start = out@;
        if self.binding() <= limit {
            out.append("(");
            self.write_ascii(out);
            out.append(")");
            assert(out@ =~= start + ("("@ + ascii(self@) + ")"@));
        } else {
            self.write_ascii(out);
        }
    }

    fn write_ascii(&self, out: &mut String)
        ensures
            final(out)@ == old(out)@ + ascii(self@),
        decreases self, 0int,
    {
        let ghost start = out@;
        match self {
            Formula::Atom(name) => {
                out.append(name.as_str());
            },
            Formula::Contradiction => {
                out.append("#");
            },
            Formula::Not(a) => {
                out.append("~");
                a.write_guarded(out, 3);
            },
            Formula::And(a, b) => {
                a.write_guarded(out, 3);
                out.append(" . ");
                b.write_guarded(out, 3);
            },
            Formula::Or(a, b) => {
                a.write_guarded(out, 2);
                out.append(" v ");
                b.write_guarded(out, 2);
            },
            Formula::Implies(a, b) => {
                a.write_guarded(out, 1);
                out.append(" > ");
                b.write_guarded(out, 1);
            },
            Formula::Biconditional(a, b) => {
                a.write_guarded(out, 0);
                out.append(" <-> ");
                b.write_guarded(out, 0);
            },
        }
        assert(out@ =~= start + ascii(self@));
    }

    /// The text of the formula, with parentheses where the binding of the connectives
    /// calls for them.
    pub fn ascii_string(&self) -> (r: String)
        ensures
            r@ == ascii(self@),
    {
        let mut r = String::new();
        self.write_ascii(&mut r);
        assert(r@ =~= ascii(self@));
        r
    }

    fn bracket_level(&self) -> (r: u8)
        ensures
            r == bracket_level(self@),
            r <= 3,
        decreases self,
    {
        match self {
            Formula::Atom(_) | Formula::Contradiction => 0,
            Formula::Not(a) => {
                let l = a.bracket_level();
                if l == 0 {
                    0
                } else if l < 3 {
                    l + 1
                } else {
                    3
                }
            },
            Formula::And(a, b) | Formula::Or(a, b) | Formula::Implies(a, b)
            | Formula::Biconditional(a, b) => {
                let l = a.bracket_level();
                let r = b.bracket_level();
                let m = if l < r {
                    r
                } else {
                    l
                };
                if m < 3 {
                    m + 1
                } else {
                    3
                }
            },
        }
    }

    fn write_bracket(&self, out: &mut String)
        ensures
            final(out)@ == old(out)@ + bracket(self@, bracketed(self@)),
        decreases self, 1int,
    {
        let ghost start = out@;
        if self.binding() > 3 {
            self.write_bracketed(out);
        } else {
            let level = self.bracket_level();
            if level <= 1 {
                out.append("(");
                self.write_bracketed(out);
                out.append(")");
            } else if level == 2 {
                out.append("[");
                self.write_bracketed(out);
                out.append("]");
            } else {
                out.append("{");
                self.write_bracketed(out);
                out.append("}");
            }
        }
        assert(out@ =~= start + bracket(self@, bracketed(self@)));
    }

    fn write_bracketed(&self, out: &mut String)
        ensures
            final(out)@ == old(out)@ + bracketed(self@),
        decreases self, 0int,
    {
        let ghost start = out@;
        match self {
            Formula::Atom(name) => {
                out.append(name.as_str());
            },
            Formula::Contradiction => {
                out.append("#");
            },
            Formula::Not(a) => {
                out.append("~");
                a.write_bracket(out);
            },
            Formula::And(a, b) => {
                a.write_bracket(out);
                out.append(" . ");
                b.write_bracket(out);
            },
            Formula::Or(a, b) => {
                a.write_bracket(out);
                out.append(" v ");
                b.write_bracket(out);
            },
            Formula::Implies(a, b) => {
                a.write_bracket(out);
                out.append(" > ");
                b.write_bracket(out);
            },
            Formula::Biconditional(a, b) => {
                a.write_bracket(out);
                out.append(" <-> ");
                b.write_bracket(out);
            },
        }
        assert(out@ =~= start + bracketed(self@));
    }

    /// The text of the formula with every compound part bracketed: `()` innermost, then
    /// `[]`, then `{}`.
    pub fn ascii_string_bracketed(&self) -> (r: String)
        ensures
            r@ == bracketed(self@),
    {
        let mut r = String::new();
        self.write_bracketed(&mut r);
        assert(r@ =~= bracketed(self@));
        r
    }
}

/// What is left of a budget.
fn left_of(budget: usize, cost: usize) -> (r: Option<usize>)
    ensures
        r matches Some(left) ==> left + cost == budget,
        r is None ==> cost > budget,
{
    if cost <= budget {
        Some(budget - cost)
    } else {
        None
    }
}

impl Formula {
    /// What a budget of characters leaves after the text of a part, with its brackets.
    fn spend_part(&self, budget: usize) -> (r: Option<usize>)
        ensures
            r matches Some(left) ==> bracket(self@, bracketed(self@)).len() + left == budget,
            r is None ==> bracket(self@, bracketed(self@)).len() > budget,
        decreases self, 1int,
    {
        proof {
            lemma_bracket_len(self@);
        }
        if self.binding() <= 3 {
            match left_of(budget, 2) {
                Some(left) => self.spend(left),
                None => None,
            }
        } else {
            self.spend(budget)
        }
    }

    /// What a budget of characters leaves after the text of the formula; nothing, where
    /// the text is longer than the budget.
    pub fn spend(&self, budget: usize) -> (r: Option<usize>)
        ensures
            r matches Some(left) ==> bracketed(self@).len() + left == budget,
            r is None ==> bracketed(self@).len() > budget,
        decreases self, 0int,
    {
        proof {
            lemma_connective_lens();
        }
        match self {
            Formula::Atom(name) => left_of(budget, name.as_str().unicode_len()),
            Formula::Contradiction => left_of(budget, 1),
            Formula::Not(a) => match left_of(budget, 1) {
                Some(left) => a.spend_part(left),
                None => None,
            },
            Formula::And(a, b) | Formula::Or(a, b) | Formula::Implies(a, b) => match left_of(
                budget,
                3,
            ) {
                None => None,
                Some(rest) => match a.spend_part(rest) {
                    None => None,
                    Some(left) => b.spend_part(left),
                },
            },
            Formula::Biconditional(a, b) => match left_of(budget, 5) {
                None => None,
                Some(rest) => match a.spend_part(rest) {
                    None => None,
                    Some(left) => b.spend_part(left),
                },
            },
        }
    }
}

/// Brackets take up two characters.
proof fn lemma_bracket_len(p: Prop)
    ensures
        bracket(p, bracketed(p)).len() == bracketed(p).len() + (if is_binary(p) {
            2nat
        } else {
            0nat
        }),
{
    reveal_strlit("(");
    reveal_strlit(")");
    reveal_strlit("[");
    reveal_strlit("]");
    reveal_strlit("{");
    reveal_strlit("}");
}

/// How many characters the connectives take up.
proof fn lemma_connective_lens()
    ensures
        "#"@.len() == 1,
        "~"@.len() == 1,
        " . "@.len() == 3,
        " v "@.len() == 3,
        " > "@.len() == 3,
        " <-> "@.len() == 5,
{
    reveal_strlit("#");
    reveal_strlit("~");
    reveal_strlit(" . ");
    reveal_strlit(" v ");
    reveal_strlit(" > ");
    reveal_strlit(" <-> ");
}

} // verus!
