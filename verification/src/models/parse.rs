//! Reading formulas from text.
//!
//! `~` binds tighter than `.`, then `v`, then `>`, then `<->`; every binary connective
//! groups to the left. `&` and `|` may stand for `.` and `v`, `!` for `~`, and any of
//! `()`, `[]`, `{}` for brackets. An atom is a capital letter followed by letters and
//! digits; `#` is the contradiction.

use vstd::prelude::*;

use crate::models::formula::{p_and, p_iff, p_implies, p_not, p_or};
use crate::models::formula::{Formula, Prop};

verus! {

/// Why a text is not a formula.
#[derive(Debug, Clone, Copy, PartialEq, Eq, Structural)]
pub enum ParseError {
    /// A character that no formula holds.
    BadCharacter,
    /// The symbols do not form a formula.
    BadSyntax,
}

/// A symbol of the text, as a value.
pub enum Sym {
    Open(u8),
    Close(u8),
    Neg,
    Join(u8),
    Falsum,
    Name(Seq<char>),
}

/// A symbol of the text.
enum Token {
    Open(u8),
    Close(u8),
    Neg,
    Join(u8),
    Falsum,
    Name(String),
}

impl View for Token {
    type V = Sym;

    closed spec fn view(&self) -> Sym {
        match self {
            Token::Open(k) => Sym::Open(*k),
            Token::Close(k) => Sym::Close(*k),
            Token::Neg => Sym::Neg,
            Token::Join(k) => Sym::Join(*k),
            Token::Falsum => Sym::Falsum,
            Token::Name(n) => Sym::Name(n@),
        }
    }
}

/// Whether a name may start with `c`.
pub open spec fn starts_name(c: char) -> bool {
    'A' <= c <= 'Z'
}

/// Whether a name may go on with `c`.
pub open spec fn goes_on(c: char) -> bool {
    'A' <= c <= 'Z' || 'a' <= c <= 'z' || '0' <= c <= '9'
}

/// The symbol that one character is by itself.
pub open spec fn single(c: char) -> Option<Sym> {
    if c == '(' {
        Some(Sym::Open(0))
    } else if c == '[' {
        Some(Sym::Open(1))
    } else if c == '{' {
        Some(Sym::Open(2))
    } else if c == ')' {
        Some(Sym::Close(0))
    } else if c == ']' {
        Some(Sym::Close(1))
    } else if c == '}' {
        Some(Sym::Close(2))
    } else if c == '~' || c == '!' {
        Some(Sym::Neg)
    } else if c == '.' || c == '&' {
        Some(Sym::Join(3))
    } else if c == 'v' || c == '|' {
        Some(Sym::Join(2))
    } else if c == '>' {
        Some(Sym::Join(1))
    } else if c == '#' {
        Some(Sym::Falsum)
    } else {
        None
    }
}

/// The end of the name that goes on at `i`.
pub open spec fn name_end(s: Seq<char>, i: int) -> int
    decreases s.len() - i,
{
    if 0 <= i < s.len() && goes_on(s[i]) {
        name_end(s, i + 1)
    } else {
        i
    }
}

/// Whether `<->` stands at `i`.
pub open spec fn arrow_at(s: Seq<char>, i: int) -> bool {
    i + 2 < s.len() && s[i] == '<' && s[i + 1] == '-' && s[i + 2] == '>'
}

/// The symbol at `i` (which is no blank) and the position after it.
pub open spec fn sym_at(s: Seq<char>, i: int) -> Option<(Sym, int)> {
    if starts_name(s[i]) {
        Some((Sym::Name(s.subrange(i, name_end(s, i + 1))), name_end(s, i + 1)))
    } else if arrow_at(s, i) {
        Some((Sym::Join(0), i + 3))
    } else {
        match single(s[i]) {
            Some(t) => Some((t, i + 1)),
            None => None,
        }
    }
}

/// The symbols of `s` from `i` on; none if some character belongs to no symbol.
pub open spec fn symbols_from(s: Seq<char>, i: int) -> Option<Seq<Sym>>
    decreases s.len() - i,
{
    if i < 0 || i >= s.len() {
        Some(seq![])
    } else if s[i] == ' ' {
        symbols_from(s, i + 1)
    } else {
        match sym_at(s, i) {
            None => None,
            Some((t, j)) => if j <= i || j > s.len() {
                None
            } else {
                match symbols_from(s, j) {
                    None => None,
                    Some(rest) => Some(seq![t] + rest),
                }
            },
        }
    }
}

/// The symbols of `s`.
pub open spec fn symbols(s: Seq<char>) -> Option<Seq<Sym>> {
    symbols_from(s, 0)
}

/// Two formulas joined by the connective of the given binding.
pub open spec fn joined(k: int, a: Prop, b: Prop) -> Prop {
    if k >= 3 {
        p_and(a, b)
    } else if k == 2 {
        p_or(a, b)
    } else if k == 1 {
        p_implies(a, b)
    } else {
        p_iff(a, b)
    }
}

/// The formula at `i` whose top connectives bind at least as tightly as `k`, and the
/// position after it.
pub open spec fn read(ts: Seq<Sym>, i: int, k: int) -> Option<(Prop, int)>
    decreases ts.len() - i, 5 - k, 0int,
{
    if i < 0 || i >= ts.len() || k < 0 {
        None
    } else if k >= 4 {
        match ts[i] {
            Sym::Name(n) => Some((Prop::Atom(n), i + 1)),
            Sym::Falsum => Some((Prop::Contradiction, i + 1)),
            Sym::Neg => match read(ts, i + 1, 4) {
                Some((p, j)) => Some((p_not(p), j)),
                None => None,
            },
            Sym::Open(b) => match read(ts, i + 1, 0) {
                Some((p, j)) => if i < j < ts.len() && ts[j] == Sym::Close(b) {
                    Some((p, j + 1))
                } else {
                    None
                },
                None => None,
            },
            _ => None,
        }
    } else {
        match read(ts, i, k + 1) {
            Some((p, j)) => if i < j <= ts.len() {
                read_more(ts, j, k, p)
            } else {
                None
            },
            None => None,
        }
    }
}

/// `left` joined with what follows at `i` by connectives of binding `k`, and the
/// position after it.
pub open spec fn read_more(ts: Seq<Sym>, i: int, k: int, left: Prop) -> Option<(Prop, int)>
    decreases ts.len() - i, 5 - k, 1int,
{
    if k < 0 || k > 3 || i < 0 {
        None
    } else if i < ts.len() && ts[i] == Sym::Join(k as u8) {
        match read(ts, i + 1, k + 1) {
            Some((p, j)) => if i < j <= ts.len() {
                read_more(ts, j, k, joined(k, left, p))
            } else {
                None
            },
            None => None,
        }
    } else {
        Some((left, i))
    }
}

/// The formula that the text is.
pub open spec fn parsed(s: Seq<char>) -> Result<Prop, ParseError> {
    match symbols(s) {
        None => Err(ParseError::BadCharacter),
        Some(ts) => match read(ts, 0, 0) {
            Some((p, j)) => if j == ts.len() {
                Ok(p)
            } else {
                Err(ParseError::BadSyntax)
            },
            None => Err(ParseError::BadSyntax),
        },
    }
}

/// The models of a list of tokens.
spec fn token_views(s: Seq<Token>) -> Seq<Sym> {
    Seq::new(s.len(), |i: int| s[i]@)
}

fn single_token(c: char) -> (r: Option<Token>)
    ensures
        r matches Some(t) ==> single(c) == Some(t@),
        r is None ==> single(c) is None,
{
    if c == '(' {
        Some(Token::Open(0))
    } else if c == '[' {
        Some(Token::Open(1))
    } else if c == '{' {
        Some(Token::Open(2))
    } else if c == ')' {
        Some(Token::Close(0))
    } else if c == ']' {
        Some(Token::Close(1))
    } else if c == '}' {
        Some(Token::Close(2))
    } else if c == '~' || c == '!' {
        Some(Token::Neg)
    } else if c == '.' || c == '&' {
        Some(Token::Join(3))
    } else if c == 'v' || c == '|' {
        Some(Token::Join(2))
    } else if c == '>' {
        Some(Token::Join(1))
    } else if c == '#' {
        Some(Token::Falsum)
    } else {
        None
    }
}

fn may_start_name(c: char) -> (r: bool)
    ensures
        r == starts_name(c),
{
    'A' <= c && c <= 'Z'
}

fn may_go_on(c: char) -> (r: bool)
    ensures
        r == goes_on(c),
{
    ('A' <= c && c <= 'Z') || ('a' <= c && c <= 'z') || ('0' <= c && c <= '9')
}

/// The symbols of the text.
fn tokens(s: &str) -> (r: Option<Vec<Token>>)
    ensures
        r matches Some(ts) ==> symbols(s@) == Some(token_views(ts@)),
        r is None ==> symbols(s@) is None,
{
    let n = s.unicode_len();
    let mut out: Vec<Token> = Vec::new();
    let mut i: usize = 0;
    assert(token_views(out@) =~= seq![]);
    proof {
        if symbols(s@) is Some {
            assert(Seq::<Sym>::empty() + symbols(s@)->0 =~= symbols(s@)->0);
        }
    }
    while i < n
        invariant
            n == s@.len(),
            i <= n,
            symbols(s@) is Some <==> symbols_from(s@, i as int) is Some,
            symbols_from(s@, i as int) matches Some(rest) ==> symbols(s@) == Some(
                token_views(out@) + rest,
            ),
        decreases n - i,
    {
        let c = s.get_char(i);
        if c == ' ' {
            i = i + 1;
        } else if may_start_name(c) {
            let mut j: usize = i + 1;
            while j < n && may_go_on(s.get_char(j))
                invariant
                    n == s@.len(),
                    i < j <= n,
                    name_end(s@, i as int + 1) == name_end(s@, j as int),
                decreases n - j,
            {
                j = j + 1;
            }
            let name = s.substring_char(i, j).to_owned();
            let ghost before = out@;
            out.push(Token::Name(name));
            proof {
                assert(name@ == s@.subrange(i as int, j as int));
                assert(token_views(out@) =~= token_views(before).push(Sym::Name(name@)));
                if symbols_from(s@, j as int) is Some {
                    let rest = symbols_from(s@, j as int)->0;
                    assert(token_views(before) + (seq![Sym::Name(name@)] + rest) =~= token_views(
                        out@,
                    ) + rest);
                }
            }
            i = j;
        } else if n - i > 2 && c == '<' && s.get_char(i + 1) == '-' && s.get_char(i + 2) == '>' {
            let ghost before = out@;
            out.push(Token::Join(0));
            proof {
                assert(token_views(out@) =~= token_views(before).push(Sym::Join(0)));
                if symbols_from(s@, i as int + 3) is Some {
                    let rest = symbols_from(s@, i as int + 3)->0;
                    assert(token_views(before) + (seq![Sym::Join(0)] + rest) =~= token_views(out@)
                        + rest);
                }
            }
            i = i + 3;
        } else {
            match single_token(c) {
                Some(t) => {
                    let ghost before = out@;
                    let ghost tv = t@;
                    out.push(t);
                    proof {
                        assert(token_views(out@) =~= token_views(before).push(tv));
                        if symbols_from(s@, i as int + 1) is Some {
                            let rest = symbols_from(s@, i as int + 1)->0;
                            assert(token_views(before) + (seq![tv] + rest) =~= token_views(out@)
                                + rest);
                        }
                    }
                    i = i + 1;
                },
                None => {
                    return None;
                },
            }
        }
    }
    assert(token_views(out@) + Seq::<Sym>::empty() =~= token_views(out@));
    Some(out)
}

fn join(k: u8, a: Formula, b: Formula) -> (r: Formula)
    ensures
        r@ == joined(k as int, a@, b@),
{
    if k >= 3 {
        Formula::And(Box::new(a), Box::new(b))
    } else if k == 2 {
        Formula::Or(Box::new(a), Box::new(b))
    } else if k == 1 {
        Formula::Implies(Box::new(a), Box::new(b))
    } else {
        Formula::Biconditional(Box::new(a), Box::new(b))
    }
}

/// The model of a reading.
spec fn reading(r: Option<(Formula, usize)>) -> Option<(Prop, int)> {
    match r {
        Some((f, j)) => Some((f@, j as int)),
        None => None,
    }
}

fn read_formula(ts: &Vec<Token>, i: usize, k: u8) -> (r: Option<(Formula, usize)>)
    requires
        k <= 4,
        i <= ts@.len(),
    ensures
        reading(r) == read(token_views(ts@), i as int, k as int),
        r matches Some((_, j)) ==> j <= ts@.len(),
    decreases ts@.len() - i, 5 - k, 0int,
{
    if i >= ts.len() {
        return None;
    }
    assert(token_views(ts@)[i as int] == ts@[i as int]@);
    if k >= 4 {
        match &ts[i] {
            Token::Name(n) => Some((Formula::Atom(n.clone()), i + 1)),
            Token::Falsum => Some((Formula::Contradiction, i + 1)),
            Token::Neg => match read_formula(ts, i + 1, 4) {
                Some((f, j)) => Some((Formula::Not(Box::new(f)), j)),
                None => None,
            },
            Token::Open(b) => match read_formula(ts, i + 1, 0) {
                Some((f, j)) => {
                    if i < j && j < ts.len() {
                        assert(token_views(ts@)[j as int] == ts@[j as int]@);
                        match &ts[j] {
                            Token::Close(c) => if *c == *b {
                                Some((f, j + 1))
                            } else {
                                None
                            },
                            _ => None,
                        }
                    } else {
                        None
                    }
                },
                None => None,
            },
            _ => None,
        }
    } else {
        match read_formula(ts, i, k + 1) {
            Some((f, j)) => if i < j {
                read_rest(ts, j, k, f)
            } else {
                None
            },
            None => None,
        }
    }
}

fn read_rest(ts: &Vec<Token>, i: usize, k: u8, left: Formula) -> (r: Option<(Formula, usize)>)
    requires
        k <= 3,
        i <= ts@.len(),
    ensures
        reading(r) == read_more(token_views(ts@), i as int, k as int, left@),
        r matches Some((_, j)) ==> j <= ts@.len(),
    decreases ts@.len() - i, 5 - k, 1int,
{
    if i < ts.len() {
        assert(token_views(ts@)[i as int] == ts@[i as int]@);
        match &ts[i] {
            Token::Join(m) => {
                if *m == k {
                    return match read_formula(ts, i + 1, k + 1) {
                        Some((f, j)) => if i < j {
                            read_rest(ts, j, k, join(k, left, f))
                        } else {
                            None
                        },
                        None => None,
                    };
                }
            },
            _ => {},
        }
    }
    Some((left, i))
}

impl Formula {
    /// Reads a formula.
    pub fn parse(s: &str) -> (r: Result<Formula, ParseError>)
        ensures
            match parsed(s@) {
                Ok(p) => r matches Ok(f) && f@ == p,
                Err(e) => r == Err::<Formula, ParseError>(e),
            },
    {
        match tokens(s) {
            None => Err(ParseError::BadCharacter),
            Some(ts) => match read_formula(&ts, 0, 0) {
                Some((f, j)) => if j == ts.len() {
                    Ok(f)
                } else {
                    Err(ParseError::BadSyntax)
                },
                None => Err(ParseError::BadSyntax),
            },
        }
    }
}

} // verus!
