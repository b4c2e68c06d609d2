//! Scopes: which lines of a proof lie in which subproofs.
//!
//! Lines are numbered from one. A scope runs from the assumption that opens it to the
//! last line before its discharge, and has no end while it is open.

use vstd::prelude::*;

verus! {

/// A scope, as a value.
pub struct Span {
    pub start: int,
    pub end: Option<int>,
}

impl Span {
    /// Whether line `n` lies in the scope.
    pub open spec fn holds(self, n: int) -> bool {
        self.start <= n && match self.end {
            Some(end) => n <= end,
            None => true,
        }
    }
}

/// Whether line `from` may cite line `to`: `to` comes earlier, and every scope that holds
/// it holds `from` as well.
pub open spec fn accessible(spans: Seq<Span>, from: int, to: int) -> bool {
    to < from && forall|i: int|
        0 <= i < spans.len() && (#[trigger] spans[i]).holds(to) ==> spans[i].holds(from)
}

/// How many scopes hold line `n`.
pub open spec fn depth_at(spans: Seq<Span>, n: int) -> nat
    decreases spans.len(),
{
    if spans.len() == 0 {
        0
    } else {
        depth_at(spans.drop_last(), n) + (if spans.last().holds(n) {
            1nat
        } else {
            0nat
        })
    }
}

/// How many scopes are open.
pub open spec fn open_count(spans: Seq<Span>) -> nat
    decreases spans.len(),
{
    if spans.len() == 0 {
        0
    } else {
        open_count(spans.drop_last()) + (if spans.last().end is None {
            1nat
        } else {
            0nat
        })
    }
}

/// Where the innermost open scope stands among the scopes.
pub open spec fn last_open(spans: Seq<Span>) -> Option<int>
    decreases spans.len(),
{
    if spans.len() == 0 {
        None
    } else if spans.last().end is None {
        Some(spans.len() - 1)
    } else {
        last_open(spans.drop_last())
    }
}

/// The scopes with the innermost open one ending at line `end`.
pub open spec fn closed_at(spans: Seq<Span>, end: int) -> Seq<Span> {
    match last_open(spans) {
        Some(i) => spans.update(i, Span { start: spans[i].start, end: Some(end) }),
        None => spans,
    }
}

/// The scopes that start before line `n`.
pub open spec fn starting_before(spans: Seq<Span>, n: int) -> Seq<Span>
    decreases spans.len(),
{
    if spans.len() == 0 {
        spans
    } else {
        let before = starting_before(spans.drop_last(), n);
        if spans.last().start < n {
            before.push(spans.last())
        } else {
            before
        }
    }
}

/// The innermost open scope is open, and those after it are not; there is none exactly
/// where no scope is open.
pub proof fn lemma_last_open(spans: Seq<Span>)
    ensures
        last_open(spans) matches Some(i) ==> 0 <= i < spans.len() && spans[i].end is None
            && forall|j: int| i < j < spans.len() ==> (#[trigger] spans[j]).end is Some,
        last_open(spans) is None ==> forall|j: int|
            0 <= j < spans.len() ==> (#[trigger] spans[j]).end is Some,
    decreases spans.len(),
{
    if spans.len() > 0 && spans.last().end is Some {
        let t = spans.drop_last();
        lemma_last_open(t);
        assert forall|j: int|
            (match last_open(t) {
                Some(i) => i,
                None => -1,
            }) < j < spans.len() implies (#[trigger] spans[j]).end is Some by {
            if j < t.len() {
                assert(t[j] == spans[j]);
            }
        }
    }
}

/// No scope is open exactly where none is the innermost open one.
pub proof fn lemma_open_count(spans: Seq<Span>)
    ensures
        open_count(spans) == 0 <==> last_open(spans) is None,
    decreases spans.len(),
{
    if spans.len() > 0 {
        lemma_open_count(spans.drop_last());
    }
}

/// No scope holds a line exactly where its depth is zero.
pub proof fn lemma_depth_zero(spans: Seq<Span>, n: int)
    ensures
        depth_at(spans, n) == 0 <==> forall|i: int|
            0 <= i < spans.len() ==> !(#[trigger] spans[i]).holds(n),
    decreases spans.len(),
{
    if spans.len() > 0 {
        let t = spans.drop_last();
        lemma_depth_zero(t, n);
        if depth_at(spans, n) == 0 {
            assert forall|i: int| 0 <= i < spans.len() implies !(#[trigger] spans[i]).holds(n) by {
                if i < t.len() {
                    assert(t[i] == spans[i]);
                }
            }
        } else if forall|i: int| 0 <= i < spans.len() ==> !(#[trigger] spans[i]).holds(n) {
            assert forall|i: int| 0 <= i < t.len() implies !(#[trigger] t[i]).holds(n) by {
                assert(t[i] == spans[i]);
            }
            assert(!spans[spans.len() - 1].holds(n));
        }
    }
}

/// A line may be cited exactly from the later lines that have left no subproof it lies in:
/// no scope begins at or before it, reaches it, and ends before the citing line.
pub proof fn law_citable(spans: Seq<Span>, from: int, to: int)
    ensures
        accessible(spans, from, to) <==> to < from && !exists|i: int|
            0 <= i < spans.len() && (#[trigger] spans[i]).start <= to && match spans[i].end {
                Some(end) => to <= end < from,
                None => false,
            },
{
}

/// What a citable line may cite, may be cited too.
pub proof fn law_citable_on(spans: Seq<Span>, a: int, b: int, c: int)
    requires
        accessible(spans, a, b),
        accessible(spans, b, c),
    ensures
        accessible(spans, a, c),
{
}

/// The depth of a line is the number of the scopes that hold it.
pub proof fn law_depth_counts(spans: Seq<Span>, n: int)
    ensures
        depth_at(spans, n) == spans.filter(|s: Span| s.holds(n)).len(),
    decreases spans.len(),
{
    reveal(Seq::filter);
    if spans.len() > 0 {
        law_depth_counts(spans.drop_last(), n);
    }
}

/// The open scopes are those without an end.
pub proof fn law_open_counts(spans: Seq<Span>)
    ensures
        open_count(spans) == spans.filter(|s: Span| s.end is None).len(),
    decreases spans.len(),
{
    reveal(Seq::filter);
    if spans.len() > 0 {
        law_open_counts(spans.drop_last());
    }
}

/// The scopes that start before a line are kept in order, and no others.
pub proof fn law_starting_before(spans: Seq<Span>, n: int)
    ensures
        starting_before(spans, n) == spans.filter(|s: Span| s.start < n),
    decreases spans.len(),
{
    reveal(Seq::filter);
    if spans.len() > 0 {
        law_starting_before(spans.drop_last(), n);
    }
}

/// Closing ends the last of the open scopes, and changes no other: one scope fewer is open,
/// unless none was.
pub proof fn law_closing(spans: Seq<Span>, end: int)
    ensures
        closed_at(spans, end).len() == spans.len(),
        open_count(spans) > 0 ==> open_count(closed_at(spans, end)) == open_count(spans) - 1,
        open_count(spans) == 0 ==> closed_at(spans, end) == spans,
        forall|i: int|
            0 <= i < spans.len() ==> if spans[i].end is None && forall|j: int|
                i < j < spans.len() ==> (#[trigger] spans[j]).end is Some {
                #[trigger] closed_at(spans, end)[i] == (Span {
                    start: spans[i].start,
                    end: Some(end),
                })
            } else {
                closed_at(spans, end)[i] == spans[i]
            },
    decreases spans.len(),
{
    lemma_last_open(spans);
    lemma_open_count(spans);
    if spans.len() > 0 {
        let t = spans.drop_last();
        law_closing(t, end);
        lemma_open_count(t);
        let c = closed_at(spans, end);
        if spans.last().end is None {
            assert(c.drop_last() =~= t);
        } else {
            assert(c.drop_last() =~= closed_at(t, end));
            assert(c.last() == spans.last());
        }
    }
}

/// A subproof that is opened and closed again is left behind: its lines cannot be cited
/// from later lines, and what could be cited before it can be cited after it.
pub proof fn law_left_behind(spans: Seq<Span>, start: int, end: int, from: int, to: int)
    requires
        start <= end < from,
    ensures
        closed_at(spans.push(Span { start, end: None }), end) == spans.push(
            Span { start, end: Some(end) },
        ),
        start <= to <= end ==> !accessible(spans.push(Span { start, end: Some(end) }), from, to),
        !(start <= to <= end) ==> (accessible(spans.push(Span { start, end: Some(end) }), from, to)
            <==> accessible(spans, from, to)),
{
    let opened = spans.push(Span { start, end: None });
    let closed = spans.push(Span { start, end: Some(end) });
    assert(last_open(opened) == Some(spans.len() as int));
    assert(closed_at(opened, end) =~= closed);
    assert(closed[spans.len() as int] == (Span { start, end: Some(end) }));
    if accessible(closed, from, to) {
        assert forall|i: int| 0 <= i < spans.len() && (#[trigger] spans[i]).holds(
            to,
        ) implies spans[i].holds(from) by {
            assert(closed[i] == spans[i]);
        }
    }
}

/// A scope.
#[derive(Debug, Clone, Copy, PartialEq, Eq)]
pub struct Scope {
    pub start: usize,
    pub end: Option<usize>,
}

impl View for Scope {
    type V = Span;

    open spec fn view(&self) -> Span {
        Span {
            start: self.start as int,
            end: match self.end {
                Some(end) => Some(end as int),
                None => None,
            },
        }
    }
}

impl Scope {
    /// Whether line `n` lies in the scope.
    pub fn contains(&self, n: usize) -> (r: bool)
        ensures
            r == self@.holds(n as int),
    {
        match self.end {
            Some(end) => n >= self.start && n <= end,
            None => n >= self.start,
        }
    }
}

/// The scopes of a proof, in the order in which they were opened.
#[derive(Debug, Clone)]
pub struct Scopes {
    scopes: Vec<Scope>,
}

impl View for Scopes {
    type V = Seq<Span>;

    closed spec fn view(&self) -> Seq<Span> {
        Seq::new(self.scopes@.len(), |i: int| self.scopes@[i]@)
    }
}

impl Scopes {
    /// No scopes.
    pub fn new() -> (r: Scopes)
        ensures
            r@ == Seq::<Span>::empty(),
    {
        let r = Scopes { scopes: Vec::new() };
        assert(r@ =~= Seq::<Span>::empty());
        r
    }

    /// Opens a scope at line `start`.
    pub fn open(&mut self, start: usize)
        ensures
            final(self)@ == old(self)@.push(Span { start: start as int, end: None }),
    {
        let ghost before = self@;
        self.scopes.push(Scope { start, end: None });
        assert(self@ =~= before.push(Span { start: start as int, end: None }));
    }

    /// Where the innermost open scope stands.
    fn last_open(&self) -> (r: Option<usize>)
        ensures
            r matches Some(i) ==> last_open(self@) == Some(i as int),
            r is None ==> last_open(self@) is None,
    {
        let mut i: usize = self.scopes.len();
        assert(self@.take(self@.len() as int) =~= self@);
        while i > 0
            invariant
                i <= self@.len(),
                self@.len() == self.scopes@.len(),
                last_open(self@) == last_open(self@.take(i as int)),
            decreases i,
        {
            let ghost t = self@.take(i as int);
            assert(t.drop_last() =~= self@.take(i as int - 1));
            assert(t.last() == self.scopes@[i as int - 1]@);
            i = i - 1;
            if self.scopes[i].end.is_none() {
                return Some(i);
            }
        }
        None
    }

    /// Ends the innermost open scope at line `end`, and gives back its first line. Where
    /// no scope is open nothing changes.
    pub fn close(&mut self, end: usize) -> (r: Option<usize>)
        ensures
            final(self)@ == closed_at(old(self)@, end as int),
            r is Some <==> last_open(old(self)@) is Some,
            r matches Some(start) ==> start == old(self)@[last_open(old(self)@)->0].start,
    {
        let ghost before = self@;
        proof {
            lemma_last_open(before);
        }
        match self.last_open() {
            Some(i) => {
                let start = self.scopes[i].start;
                self.scopes.set(i, Scope { start, end: Some(end) });
                assert(self@ =~= before.update(
                    i as int,
                    Span { start: start as int, end: Some(end as int) },
                ));
                Some(start)
            },
            None => None,
        }
    }

    /// How many scopes are open.
    pub fn depth(&self) -> (r: usize)
        ensures
            r == open_count(self@),
            r <= self@.len(),
    {
        let mut i: usize = 0;
        let mut r: usize = 0;
        assert(self@.take(0) =~= seq![]);
        while i < self.scopes.len()
            invariant
                i <= self@.len(),
                self@.len() == self.scopes@.len(),
                r == open_count(self@.take(i as int)),
                r <= i,
            decreases self@.len() - i,
        {
            let ghost t = self@.take(i as int + 1);
            assert(t.drop_last() =~= self@.take(i as int));
            assert(t.last() == self.scopes@[i as int]@);
            if self.scopes[i].end.is_none() {
                r = r + 1;
            }
            i = i + 1;
        }
        assert(self@.take(self@.len() as int) =~= self@);
        r
    }

    /// How many scopes hold line `n`.
    pub fn depth_at(&self, n: usize) -> (r: usize)
        ensures
            r == depth_at(self@, n as int),
    {
        let mut i: usize = 0;
        let mut r: usize = 0;
        assert(self@.take(0) =~= seq![]);
        while i < self.scopes.len()
            invariant
                i <= self@.len(),
                self@.len() == self.scopes@.len(),
                r == depth_at(self@.take(i as int), n as int),
                r <= i,
            decreases self@.len() - i,
        {
            let ghost t = self@.take(i as int + 1);
            assert(t.drop_last() =~= self@.take(i as int));
            assert(t.last() == self.scopes@[i as int]@);
            if self.scopes[i].contains(n) {
                r = r + 1;
            }
            i = i + 1;
        }
        assert(self@.take(self@.len() as int) =~= self@);
        r
    }

    /// Whether line `from` may cite line `to`.
    pub fn is_accessible(&self, from: usize, to: usize) -> (r: bool)
        ensures
            r == accessible(self@, from as int, to as int),
    {
        if to >= from {
            return false;
        }
        let mut i: usize = 0;
        while i < self.scopes.len()
            invariant
                i <= self@.len(),
                self@.len() == self.scopes@.len(),
                forall|j: int|
                    0 <= j < i && (#[trigger] self@[j]).holds(to as int) ==> self@[j].holds(
                        from as int,
                    ),
            decreases self@.len() - i,
        {
            assert(self@[i as int] == self.scopes@[i as int]@);
            if self.scopes[i].contains(to) && !self.scopes[i].contains(from) {
                return false;
            }
            i = i + 1;
        }
        true
    }

    /// Whether the line after line `n` may cite line `to`.
    pub fn may_cite_after(&self, n: usize, to: usize) -> (r: bool)
        requires
            to <= n,
        ensures
            r == accessible(self@, n as int + 1, to as int),
    {
        let mut i: usize = 0;
        while i < self.scopes.len()
            invariant
                i <= self@.len(),
                to <= n,
                self@.len() == self.scopes@.len(),
                forall|j: int|
                    0 <= j < i && (#[trigger] self@[j]).holds(to as int) ==> self@[j].holds(
                        n as int + 1,
                    ),
            decreases self@.len() - i,
        {
            assert(self@[i as int] == self.scopes@[i as int]@);
            let s = self.scopes[i];
            let goes_on = match s.end {
                Some(end) => n < end,
                None => true,
            };
            if s.contains(to) && !goes_on {
                return false;
            }
            i = i + 1;
        }
        true
    }

    /// Whether a scope starts at line `start`, with the given end.
    pub fn has(&self, start: usize, end: Option<usize>) -> (r: bool)
        ensures
            r == self@.contains((Scope { start, end })@),
    {
        let mut i: usize = 0;
        while i < self.scopes.len()
            invariant
                i <= self@.len(),
                self@.len() == self.scopes@.len(),
                forall|j: int| 0 <= j < i ==> #[trigger] self@[j] != (Scope { start, end })@,
            decreases self@.len() - i,
        {
            assert(self@[i as int] == self.scopes@[i as int]@);
            let s = self.scopes[i];
            if s.start == start {
                let same = match (s.end, end) {
                    (Some(a), Some(b)) => a == b,
                    (None, None) => true,
                    _ => false,
                };
                if same {
                    return true;
                }
            }
            i = i + 1;
        }
        false
    }

    /// Whether a scope starts at line `n` and holds it.
    pub fn starts_at(&self, n: usize) -> (r: bool)
        ensures
            r == exists|i: int|
                0 <= i < self@.len() && (#[trigger] self@[i]).start == n && self@[i].holds(
                    n as int,
                ),
    {
        let mut i: usize = 0;
        while i < self.scopes.len()
            invariant
                i <= self@.len(),
                self@.len() == self.scopes@.len(),
                forall|j: int|
                    0 <= j < i ==> !((#[trigger] self@[j]).start == n && self@[j].holds(n as int)),
            decreases self@.len() - i,
        {
            assert(self@[i as int] == self.scopes@[i as int]@);
            if self.scopes[i].start == n && self.scopes[i].contains(n) {
                return true;
            }
            i = i + 1;
        }
        false
    }

    /// Whether every scope that holds the last line of the scope from `start` to `end`,
    /// but for that scope, holds line `n`.
    pub fn others_hold(&self, start: usize, end: usize, n: usize) -> (r: bool)
        ensures
            r == forall|i: int|
                0 <= i < self@.len() && (#[trigger] self@[i]).holds(end as int) && self@[i] != (
                Span { start: start as int, end: Some(end as int) }) ==> self@[i].holds(n as int),
    {
        let ghost span = Span { start: start as int, end: Some(end as int) };
        let mut i: usize = 0;
        while i < self.scopes.len()
            invariant
                i <= self@.len(),
                self@.len() == self.scopes@.len(),
                span == (Span { start: start as int, end: Some(end as int) }),
                forall|j: int|
                    0 <= j < i && (#[trigger] self@[j]).holds(end as int) && self@[j] != span
                        ==> self@[j].holds(n as int),
            decreases self@.len() - i,
        {
            assert(self@[i as int] == self.scopes@[i as int]@);
            let s = self.scopes[i];
            let same = s.start == start && match s.end {
                Some(e) => e == end,
                None => false,
            };
            if s.contains(end) && !same && !s.contains(n) {
                assert(self@[i as int].holds(end as int) && self@[i as int] != span);
                return false;
            }
            i = i + 1;
        }
        true
    }

    /// Forgets every scope, open or closed, that starts at line `n` or later.
    pub fn truncate_to(&mut self, n: usize)
        ensures
            final(self)@ == starting_before(old(self)@, n as int),
    {
        let ghost before = self@;
        let mut kept: Vec<Scope> = Vec::new();
        let mut i: usize = 0;
        assert(before.take(0) =~= seq![]);
        while i < self.scopes.len()
            invariant
                i <= self.scopes@.len(),
                before == self@,
                self@.len() == self.scopes@.len(),
                Seq::new(kept@.len(), |j: int| kept@[j]@) == starting_before(
                    before.take(i as int),
                    n as int,
                ),
            decreases self.scopes@.len() - i,
        {
            let ghost t = before.take(i as int + 1);
            let ghost k = kept@;
            assert(t.drop_last() =~= before.take(i as int));
            assert(t.last() == self.scopes@[i as int]@);
            let s = self.scopes[i];
            if s.start < n {
                kept.push(s);
                assert(Seq::new(kept@.len(), |j: int| kept@[j]@) =~= Seq::new(
                    k.len(),
                    |j: int| k[j]@,
                ).push(s@));
            }
            i = i + 1;
        }
        assert(before.take(before.len() as int) =~= before);
        self.scopes = kept;
    }
}

} // verus!
