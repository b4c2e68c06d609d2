//! A rewrite distance is the length of a shortest path of rewrites.

use vstd::prelude::*;

use crate::models::formula::{equivalent, p_not, Prop};
use crate::models::rewriting::{
    lemma_rewrites_cases, lemma_root_rewrites, rewrites, root_rewrites, same_shape, Rewrite,
};
use crate::models::rules::equivalence::{forms, EquivalenceRule};
use crate::models::spelling::{law_texts_differ, plain};
use crate::models::text::ascii;
use crate::services::cheese::{
    distance, law_distance_reached, law_rewritten_equivalent, rewrites_in, sweep_from,
    sweep_frontier, sweep_rewrites, Sweep, NODE_CAP,
};

verus! {

/// Whether a search for `b` visits too much before it comes to an end.
pub open spec fn capped_from(
    frontier: Seq<Prop>,
    b: Prop,
    visited: Set<Seq<char>>,
    count: nat,
    depth: nat,
    max: nat,
) -> bool
    decreases max + 1 - depth,
{
    depth <= max && match sweep_frontier(frontier, b, seq![], visited, count) {
        Sweep::Hit => false,
        Sweep::Capped => true,
        Sweep::Next(n, v, c) => n.len() > 0 && capped_from(n, b, v, c, depth + 1, max),
    }
}

/// Whether the search for a path from `a` to `b` visits too much before it comes to an
/// end.
pub open spec fn cut_short(a: Prop, b: Prop, max: nat) -> bool {
    equivalent(a, b) && a != b && capped_from(seq![a], b, set![ascii(a)], 1, 1, max)
}

/// Whether one rewrite leads from `x` to `y`.
spec fn leads(x: Prop, y: Prop) -> bool {
    exists|rule: EquivalenceRule| #[trigger] rewrites(x).contains((y, rule))
}

/// `known` and what one rewrite makes of it.
spec fn spread(known: Set<Prop>) -> Set<Prop> {
    Set::new(
        |y: Prop|
            known.contains(y) || exists|x: Prop| known.contains(x) && #[trigger] leads(x, y),
    )
}

/// What at most `k` rewrites make of `a`.
spec fn ball(a: Prop, k: nat) -> Set<Prop>
    decreases k,
{
    if k == 0 {
        set![a]
    } else {
        spread(ball(a, (k - 1) as nat))
    }
}

/// Rewrites of plain formulas are plain.
proof fn lemma_plain_forms(rule: EquivalenceRule, p: Prop, q: Prop)
    requires
        plain(p),
        forms(rule, p).contains(q),
    ensures
        plain(q),
{
    reveal_with_fuel(plain, 5);
}

/// A rewrite of a plain formula is plain.
proof fn lemma_plain_rewrite(p: Prop, q: Prop, rule: EquivalenceRule)
    requires
        plain(p),
        rewrites(p).contains((q, rule)),
    ensures
        plain(q),
    decreases p,
{
    lemma_rewrites_cases(p, q, rule);
    if root_rewrites(p).contains((q, rule)) {
        lemma_root_rewrites(p, q, rule);
        lemma_plain_forms(rule, p, q);
    } else {
        match p {
            Prop::Atom(_) | Prop::Contradiction => {},
            Prop::Not(a) => {
                let x = choose|x: Prop|
                    #[trigger] rewrites(*a).contains((x, rule)) && q == p_not(x);
                lemma_plain_rewrite(*a, x, rule);
            },
            Prop::And(a, b) | Prop::Or(a, b) | Prop::Implies(a, b) | Prop::Biconditional(a, b) => {
                if exists|x: Prop|
                    #[trigger] rewrites(*a).contains((x, rule)) && same_shape(p, q, x, *b) {
                    let x = choose|x: Prop|
                        #[trigger] rewrites(*a).contains((x, rule)) && same_shape(p, q, x, *b);
                    lemma_plain_rewrite(*a, x, rule);
                } else {
                    let x = choose|x: Prop|
                        #[trigger] rewrites(*b).contains((x, rule)) && same_shape(p, q, *a, x);
                    lemma_plain_rewrite(*b, x, rule);
                }
            },
        }
    }
}

/// Whether every formula is plain.
spec fn all_plain(known: Set<Prop>) -> bool {
    forall|x: Prop| #[trigger] known.contains(x) ==> plain(x)
}

/// What rewrites make of plain formulas is plain.
proof fn lemma_plain_spread(known: Set<Prop>)
    requires
        all_plain(known),
    ensures
        all_plain(spread(known)),
{
    assert forall|y: Prop| #[trigger] spread(known).contains(y) implies plain(y) by {
        if !known.contains(y) {
            let x = choose|x: Prop| known.contains(x) && #[trigger] leads(x, y);
            let rule = choose|rule: EquivalenceRule| #[trigger] rewrites(x).contains((y, rule));
            lemma_plain_rewrite(x, y, rule);
        }
    }
}

/// Whether every rewrite of `x` was visited and none is `b`.
spec fn done(x: Prop, visited: Set<Seq<char>>, b: Prop) -> bool {
    forall|y: Prop| #[trigger] leads(x, y) ==> visited.contains(ascii(y)) && y != b
}

/// What a search knows when it has seen exactly the formulas of `known` and goes on from
/// `frontier`.
spec fn explored(known: Set<Prop>, b: Prop, frontier: Seq<Prop>, visited: Set<Seq<char>>) -> bool {
    &&& forall|x: Prop| #[trigger] known.contains(x) ==> visited.contains(ascii(x)) && x != b
    &&& forall|x: Prop| #[trigger]
        known.contains(x) ==> frontier.contains(x) || done(x, visited, b)
    &&& forall|t: Seq<char>| #[trigger]
        visited.contains(t) ==> exists|x: Prop| #[trigger] known.contains(x) && ascii(x) == t
    &&& forall|i: int| 0 <= i < frontier.len() ==> known.contains(#[trigger] frontier[i])
}

/// What a sweep over rewrites adds: the texts of all of them, and the formulas that were
/// new.
spec fn swept(
    all: spec_fn(Prop) -> bool,
    b: Prop,
    next: Seq<Prop>,
    visited: Set<Seq<char>>,
    n: Seq<Prop>,
    v: Set<Seq<char>>,
) -> bool {
    &&& visited.subset_of(v)
    &&& forall|x: Prop| #[trigger] next.contains(x) ==> n.contains(x)
    &&& forall|y: Prop| #[trigger] all(y) ==> v.contains(ascii(y)) && y != b
    &&& forall|t: Seq<char>| #[trigger]
        v.contains(t) ==> visited.contains(t) || exists|x: Prop| #[trigger]
            n.contains(x) && ascii(x) == t
    &&& forall|x: Prop| #[trigger] n.contains(x) ==> next.contains(x) || all(x)
}

/// Whether `y` is the result of one of the rewrites.
spec fn results(rs: Seq<Rewrite>) -> spec_fn(Prop) -> bool {
    |y: Prop| exists|i: int| 0 <= i < rs.len() && (#[trigger] rs[i]).0 == y
}

/// Whether `y` is a rewrite of one of the formulas.
spec fn offspring(frontier: Seq<Prop>) -> spec_fn(Prop) -> bool {
    |y: Prop| exists|i: int| 0 <= i < frontier.len() && leads(#[trigger] frontier[i], y)
}

/// [`swept`] of a list of rewrites.
proof fn lemma_swept_rewrites(
    rs: Seq<Rewrite>,
    b: Prop,
    next: Seq<Prop>,
    visited: Set<Seq<char>>,
    count: nat,
)
    ensures
        sweep_rewrites(rs, b, next, visited, count) matches Sweep::Next(n, v, _) ==> swept(
            results(rs),
            b,
            next,
            visited,
            n,
            v,
        ),
    decreases rs.len(),
{
    if rs.len() > 0 {
        let c = rs[0].0;
        let rest = rs.drop_first();
        let (next1, visited1, count1) = if visited.contains(ascii(c)) {
            (next, visited, count)
        } else {
            (next.push(c), visited.insert(ascii(c)), count + 1)
        };
        lemma_swept_rewrites(rest, b, next1, visited1, count1);
        match sweep_rewrites(rs, b, next, visited, count) {
            Sweep::Next(n, v, _) => {
                assert(c != b);
                assert(swept(results(rest), b, next1, visited1, n, v));
                assert(next1.contains(c) || visited.contains(ascii(c))) by {
                    if !visited.contains(ascii(c)) {
                        assert(next1[next.len() as int] == c);
                    }
                }
                assert forall|x: Prop| #[trigger] next.contains(x) implies n.contains(x) by {
                    let i = choose|i: int| 0 <= i < next.len() && next[i] == x;
                    assert(next1[i] == x);
                    assert(next1.contains(x));
                }
                assert forall|y: Prop| #[trigger] results(rs)(y) implies v.contains(ascii(y)) && y
                    != b by {
                    let i = choose|i: int| 0 <= i < rs.len() && (#[trigger] rs[i]).0 == y;
                    if i > 0 {
                        assert(rest[i - 1] == rs[i]);
                        assert(results(rest)(y));
                    } else {
                        assert(visited1.contains(ascii(c)));
                    }
                }
                assert forall|t: Seq<char>| #[trigger] v.contains(t) implies visited.contains(t)
                    || exists|x: Prop| #[trigger] n.contains(x) && ascii(x) == t by {
                    if visited1.contains(t) && !visited.contains(t) {
                        assert(t == ascii(c));
                        assert(next1.contains(c));
                        assert(n.contains(c));
                    }
                }
                assert forall|x: Prop| #[trigger] n.contains(x) implies next.contains(x) || results(
                    rs,
                )(x) by {
                    if next1.contains(x) {
                        let i = choose|i: int| 0 <= i < next1.len() && next1[i] == x;
                        if i < next.len() {
                            assert(next[i] == x);
                        } else {
                            assert(rs[0].0 == x);
                        }
                    } else {
                        assert(results(rest)(x));
                        let i = choose|i: int| 0 <= i < rest.len() && (#[trigger] rest[i]).0 == x;
                        assert(rs[i + 1].0 == x);
                    }
                }
            },
            _ => {},
        }
    } else {
        assert(visited.subset_of(visited));
    }
}

/// [`swept`] of a frontier.
proof fn lemma_swept_frontier(
    frontier: Seq<Prop>,
    b: Prop,
    next: Seq<Prop>,
    visited: Set<Seq<char>>,
    count: nat,
)
    ensures
        sweep_frontier(frontier, b, next, visited, count) matches Sweep::Next(n, v, _) ==> swept(
            offspring(frontier),
            b,
            next,
            visited,
            n,
            v,
        ),
    decreases frontier.len(),
{
    if frontier.len() > 0 {
        let m = frontier[0];
        let rest = frontier.drop_first();
        let rs = rewrites(m);
        lemma_swept_rewrites(rs, b, next, visited, count);
        match sweep_rewrites(rs, b, next, visited, count) {
            Sweep::Next(n1, v1, c1) => {
                lemma_swept_frontier(rest, b, n1, v1, c1);
                match sweep_frontier(rest, b, n1, v1, c1) {
                    Sweep::Next(n, v, _) => {
                        assert(swept(results(rs), b, next, visited, n1, v1));
                        assert(swept(offspring(rest), b, n1, v1, n, v));
                        assert forall|y: Prop| #[trigger]
                            offspring(frontier)(y) implies v.contains(ascii(y)) && y != b by {
                            let i = choose|i: int|
                                0 <= i < frontier.len() && leads(#[trigger] frontier[i], y);
                            if i > 0 {
                                assert(rest[i - 1] == frontier[i]);
                                assert(offspring(rest)(y));
                            } else {
                                let rule = choose|rule: EquivalenceRule| #[trigger]
                                    rewrites(m).contains((y, rule));
                                let j = choose|j: int| 0 <= j < rs.len() && rs[j] == (y, rule);
                                assert(rs[j].0 == y);
                                assert(results(rs)(y));
                                assert(v1.contains(ascii(y)));
                            }
                        }
                        assert forall|t: Seq<char>| #[trigger] v.contains(t) implies visited.contains(
                            t,
                        ) || exists|x: Prop| #[trigger] n.contains(x) && ascii(x) == t by {
                            if v1.contains(t) && !visited.contains(t) {
                                let x = choose|x: Prop| #[trigger]
                                    n1.contains(x) && ascii(x) == t;
                                assert(n.contains(x));
                            }
                        }
                        assert forall|x: Prop| #[trigger] n.contains(x) implies next.contains(x)
                            || offspring(frontier)(x) by {
                            if n1.contains(x) {
                                if !next.contains(x) {
                                    assert(results(rs)(x));
                                    let i = choose|i: int|
                                        0 <= i < rs.len() && (#[trigger] rs[i]).0 == x;
                                    assert(rewrites(m).contains((x, rs[i].1)));
                                    assert(leads(frontier[0], x));
                                }
                            } else {
                                assert(offspring(rest)(x));
                                let i = choose|i: int|
                                    0 <= i < rest.len() && leads(#[trigger] rest[i], x);
                                assert(leads(frontier[i + 1], x));
                            }
                        }
                    },
                    _ => {},
                }
            },
            _ => {},
        }
    } else {
        assert(visited.subset_of(visited));
    }
}

/// A sweep that does not meet `b` explores everything one rewrite further.
proof fn lemma_explored(
    known: Set<Prop>,
    b: Prop,
    frontier: Seq<Prop>,
    visited: Set<Seq<char>>,
    n: Seq<Prop>,
    v: Set<Seq<char>>,
)
    requires
        all_plain(known),
        explored(known, b, frontier, visited),
        swept(offspring(frontier), b, seq![], visited, n, v),
    ensures
        explored(spread(known), b, n, v),
{
    let more = spread(known);
    lemma_plain_spread(known);
    assert forall|x: Prop, y: Prop| known.contains(x) && #[trigger] leads(x, y) implies v.contains(
        ascii(y),
    ) && y != b by {
        if frontier.contains(x) {
            let i = choose|i: int| 0 <= i < frontier.len() && frontier[i] == x;
            assert(leads(frontier[i], y));
            assert(offspring(frontier)(y));
        } else {
            assert(done(x, visited, b));
        }
    }
    assert forall|x: Prop| #[trigger] more.contains(x) implies v.contains(ascii(x)) && x != b by {
        if !known.contains(x) {
            let m = choose|m: Prop| known.contains(m) && #[trigger] leads(m, x);
        }
    }
    assert forall|i: int| 0 <= i < n.len() implies more.contains(#[trigger] n[i]) by {
        assert(n.contains(n[i]));
        assert(offspring(frontier)(n[i]));
        let j = choose|j: int| 0 <= j < frontier.len() && leads(#[trigger] frontier[j], n[i]);
        assert(known.contains(frontier[j]));
    }
    assert forall|t: Seq<char>| #[trigger] v.contains(t) implies exists|x: Prop| #[trigger]
        more.contains(x) && ascii(x) == t by {
        if visited.contains(t) {
            let x = choose|x: Prop| #[trigger] known.contains(x) && ascii(x) == t;
            assert(more.contains(x));
        } else {
            let x = choose|x: Prop| #[trigger] n.contains(x) && ascii(x) == t;
            let i = choose|i: int| 0 <= i < n.len() && n[i] == x;
            assert(more.contains(n[i]));
        }
    }
    assert forall|x: Prop| #[trigger] more.contains(x) implies n.contains(x) || done(x, v, b) by {
        assert(v.contains(ascii(x)));
        if visited.contains(ascii(x)) {
            let y = choose|y: Prop| #[trigger] known.contains(y) && ascii(y) == ascii(x);
            assert(more.contains(y));
            if x != y {
                law_texts_differ(x, y);
            }
            assert(done(x, v, b));
        } else {
            let y = choose|y: Prop| #[trigger] n.contains(y) && ascii(y) == ascii(x);
            let i = choose|i: int| 0 <= i < n.len() && n[i] == y;
            assert(more.contains(n[i]));
            if x != y {
                law_texts_differ(x, y);
            }
        }
    }
}

/// What at most `n` rewrites make of `a` is within reach.
proof fn lemma_ball(a: Prop, x: Prop, n: nat, k: nat)
    requires
        rewrites_in(a, x, n),
        n <= k,
    ensures
        ball(a, k).contains(x),
    decreases k,
{
    if k > 0 {
        if n < k {
            lemma_ball(a, x, n, (k - 1) as nat);
        } else {
            let (m, rule) = choose|m: Prop, rule: EquivalenceRule|
                #[trigger] rewrites(m).contains((x, rule)) && rewrites_in(a, m, (n - 1) as nat);
            lemma_ball(a, m, (n - 1) as nat, (k - 1) as nat);
            assert(leads(m, x));
        }
    }
}

/// Where there is nothing to go on from, everything within reach is known.
proof fn lemma_closed(a: Prop, known: Set<Prop>, b: Prop, visited: Set<Seq<char>>, x: Prop, n: nat)
    requires
        all_plain(known),
        explored(known, b, seq![], visited),
        known.contains(a),
        rewrites_in(a, x, n),
    ensures
        known.contains(x),
    decreases n,
{
    if n > 0 {
        let (m, rule) = choose|m: Prop, rule: EquivalenceRule|
            #[trigger] rewrites(m).contains((x, rule)) && rewrites_in(a, m, (n - 1) as nat);
        lemma_closed(a, known, b, visited, m, (n - 1) as nat);
        assert(done(m, visited, b));
        assert(leads(m, x));
        let y = choose|y: Prop| #[trigger] known.contains(y) && ascii(y) == ascii(x);
        lemma_plain_rewrite(m, x, rule);
        if x != y {
            law_texts_differ(x, y);
        }
    }
}

/// `a` is within reach of itself.
proof fn lemma_ball_has_center(a: Prop, k: nat)
    ensures
        ball(a, k).contains(a),
{
    assert(rewrites_in(a, a, 0));
    lemma_ball(a, a, 0, k);
}

/// What a search finds is no further than any path.
proof fn lemma_sweep_least(
    a: Prop,
    b: Prop,
    frontier: Seq<Prop>,
    visited: Set<Seq<char>>,
    count: nat,
    depth: nat,
    max: nat,
    n: nat,
)
    requires
        depth > 0,
        all_plain(ball(a, (depth - 1) as nat)),
        explored(ball(a, (depth - 1) as nat), b, frontier, visited),
        rewrites_in(a, b, n),
        n <= max,
    ensures
        match sweep_from(frontier, b, visited, count, depth, max) {
            Some(d) => d <= n,
            None => capped_from(frontier, b, visited, count, depth, max),
        },
    decreases max + 1 - depth,
{
    let known = ball(a, (depth - 1) as nat);
    if n < depth {
        lemma_ball(a, b, n, (depth - 1) as nat);
    } else {
        lemma_swept_frontier(frontier, b, seq![], visited, count);
        match sweep_frontier(frontier, b, seq![], visited, count) {
            Sweep::Next(next, v, c) => {
                lemma_explored(known, b, frontier, visited, next, v);
                lemma_plain_spread(known);
                assert(ball(a, depth) == spread(known));
                if next.len() == 0 {
                    assert(next =~= seq![]);
                    lemma_ball_has_center(a, depth);
                    lemma_closed(a, spread(known), b, v, b, n);
                } else {
                    lemma_sweep_least(a, b, next, v, c, depth + 1, max, n);
                }
            },
            _ => {},
        }
    }
}

/// No path of rewrites is shorter than a distance; and where there is a path as short as
/// asked for, there is a distance, unless the search was cut short.
pub proof fn law_distance_least(a: Prop, b: Prop, max: nat, n: nat)
    requires
        plain(a),
        rewrites_in(a, b, n),
    ensures
        distance(a, b, max) matches Some(d) ==> d <= n,
        n <= max && !cut_short(a, b, max) ==> distance(a, b, max) is Some,
{
    law_rewritten_equivalent(a, b, n);
    if a != b {
        if n <= max {
            let known = ball(a, 0);
            assert(known =~= set![a]);
            assert(explored(known, b, seq![a], set![ascii(a)])) by {
                assert(seq![a][0] == a);
                assert(seq![a].contains(a));
                assert(known.contains(a));
                assert forall|t: Seq<char>| #[trigger]
                    set![ascii(a)].contains(t) implies exists|x: Prop| #[trigger]
                    known.contains(x) && ascii(x) == t by {
                    assert(known.contains(a) && ascii(a) == t);
                }
            }
            lemma_sweep_least(a, b, seq![a], set![ascii(a)], 1, 1, max, n);
        } else {
            law_distance_reached(a, b, max);
        }
    }
}

/// Whether at most `k` rewrites lead from `a` to `x`.
pub open spec fn near(a: Prop, x: Prop, k: nat) -> bool {
    exists|n: nat| n <= k && #[trigger] rewrites_in(a, x, n)
}

/// Whether some texts, so many of them, are all texts of formulas that at most `k` rewrites
/// make of `a`.
pub open spec fn charted(a: Prop, texts: Set<Seq<char>>, count: nat, k: nat) -> bool {
    &&& texts.finite()
    &&& texts.len() == count
    &&& forall|t: Seq<char>| #[trigger] texts.contains(t) ==> exists|x: Prop| #[trigger]
        near(a, x, k) && ascii(x) == t
}

/// Whether a sweep has charted what it visited, and gave up only after visiting as much as
/// it may.
spec fn charts(a: Prop, r: Sweep, k: nat) -> bool {
    match r {
        Sweep::Hit => true,
        Sweep::Capped => exists|texts: Set<Seq<char>>, count: nat|
            count >= 20_000 && #[trigger] charted(a, texts, count, k),
        Sweep::Next(s, v, c) => charted(a, v, c, k) && forall|i: int|
            0 <= i < s.len() ==> near(a, #[trigger] s[i], k),
    }
}

/// A sweep over the rewrites of `m` charts what it visits.
proof fn lemma_rewrites_charted(
    a: Prop,
    m: Prop,
    rs: Seq<Rewrite>,
    b: Prop,
    next: Seq<Prop>,
    visited: Set<Seq<char>>,
    count: nat,
    k: nat,
)
    requires
        k >= 1,
        near(a, m, (k - 1) as nat),
        forall|i: int| 0 <= i < rs.len() ==> rewrites(m).contains(#[trigger] rs[i]),
        charted(a, visited, count, k),
        forall|i: int| 0 <= i < next.len() ==> near(a, #[trigger] next[i], k),
    ensures
        charts(a, sweep_rewrites(rs, b, next, visited, count), k),
    decreases rs.len(),
{
    if rs.len() > 0 {
        let c = rs[0].0;
        let rest = rs.drop_first();
        assert forall|i: int| 0 <= i < rest.len() implies rewrites(m).contains(
            #[trigger] rest[i],
        ) by {
            assert(rest[i] == rs[i + 1]);
        }
        assert(near(a, c, k)) by {
            let n = choose|n: nat| n <= k - 1 && #[trigger] rewrites_in(a, m, n);
            assert(rs[0] == (c, rs[0].1));
            assert(rewrites(m).contains((c, rs[0].1)) && rewrites_in(a, m, (n + 1 - 1) as nat));
            assert(rewrites_in(a, c, n + 1));
        }
        if c == b {
        } else if visited.contains(ascii(c)) {
            lemma_rewrites_charted(a, m, rest, b, next, visited, count, k);
        } else if count >= NODE_CAP {
            assert(charted(a, visited, count, k));
        } else {
            let v = visited.insert(ascii(c));
            assert(charted(a, v, count + 1, k)) by {
                assert forall|t: Seq<char>| #[trigger] v.contains(t) implies exists|x: Prop|
                    #[trigger] near(a, x, k) && ascii(x) == t by {
                    if t == ascii(c) {
                        assert(near(a, c, k) && ascii(c) == t);
                    } else {
                        assert(visited.contains(t));
                    }
                }
            }
            lemma_rewrites_charted(a, m, rest, b, next.push(c), v, count + 1, k);
        }
    }
}

/// A sweep over a frontier charts what it visits.
proof fn lemma_frontier_charted(
    a: Prop,
    frontier: Seq<Prop>,
    b: Prop,
    next: Seq<Prop>,
    visited: Set<Seq<char>>,
    count: nat,
    k: nat,
)
    requires
        k >= 1,
        forall|i: int| 0 <= i < frontier.len() ==> near(a, #[trigger] frontier[i], (k - 1) as nat),
        charted(a, visited, count, k),
        forall|i: int| 0 <= i < next.len() ==> near(a, #[trigger] next[i], k),
    ensures
        charts(a, sweep_frontier(frontier, b, next, visited, count), k),
    decreases frontier.len(),
{
    if frontier.len() > 0 {
        let m = frontier[0];
        let rs = rewrites(m);
        assert forall|i: int| 0 <= i < rs.len() implies rewrites(m).contains(#[trigger] rs[i]) by {}
        lemma_rewrites_charted(a, m, rs, b, next, visited, count, k);
        match sweep_rewrites(rs, b, next, visited, count) {
            Sweep::Next(s, v, c) => {
                let rest = frontier.drop_first();
                assert forall|i: int| 0 <= i < rest.len() implies near(
                    a,
                    #[trigger] rest[i],
                    (k - 1) as nat,
                ) by {
                    assert(rest[i] == frontier[i + 1]);
                }
                lemma_frontier_charted(a, rest, b, s, v, c, k);
            },
            _ => {},
        }
    }
}

/// What is charted stays so with more rewrites.
proof fn lemma_charted_more(a: Prop, texts: Set<Seq<char>>, count: nat, j: nat, k: nat)
    requires
        charted(a, texts, count, j),
        j <= k,
    ensures
        charted(a, texts, count, k),
{
    assert forall|t: Seq<char>| #[trigger] texts.contains(t) implies exists|x: Prop| #[trigger]
        near(a, x, k) && ascii(x) == t by {
        let x = choose|x: Prop| #[trigger] near(a, x, j) && ascii(x) == t;
        let n = choose|n: nat| n <= j && #[trigger] rewrites_in(a, x, n);
        assert(rewrites_in(a, x, n));
        assert(near(a, x, k));
    }
}

/// A search that visits too much has visited as much as it may.
proof fn lemma_capped_charted(
    a: Prop,
    frontier: Seq<Prop>,
    b: Prop,
    visited: Set<Seq<char>>,
    count: nat,
    depth: nat,
    max: nat,
)
    requires
        depth >= 1,
        capped_from(frontier, b, visited, count, depth, max),
        charted(a, visited, count, (depth - 1) as nat),
        forall|i: int|
            0 <= i < frontier.len() ==> near(a, #[trigger] frontier[i], (depth - 1) as nat),
    ensures
        exists|texts: Set<Seq<char>>, n: nat|
            n >= 20_000 && #[trigger] charted(a, texts, n, max),
    decreases max + 1 - depth,
{
    lemma_charted_more(a, visited, count, (depth - 1) as nat, depth);
    lemma_frontier_charted(a, frontier, b, seq![], visited, count, depth);
    match sweep_frontier(frontier, b, seq![], visited, count) {
        Sweep::Hit => {},
        Sweep::Capped => {
            let (texts, n) = choose|texts: Set<Seq<char>>, n: nat|
                n >= 20_000 && #[trigger] charted(a, texts, n, depth);
            lemma_charted_more(a, texts, n, depth, max);
            assert(charted(a, texts, n, max));
        },
        Sweep::Next(s, v, c) => {
            lemma_capped_charted(a, s, b, v, c, depth + 1, max);
        },
    }
}

/// A search for a path is cut short only where there is much to search: at least twenty
/// thousand different texts are those of formulas that the rewrites asked for can make.
pub proof fn law_cut_short_is_large(a: Prop, b: Prop, max: nat)
    requires
        cut_short(a, b, max),
    ensures
        exists|texts: Set<Seq<char>>, n: nat|
            n >= 20_000 && #[trigger] charted(a, texts, n, max),
{
    assert(rewrites_in(a, a, 0));
    assert(near(a, a, 0));
    assert(charted(a, set![ascii(a)], 1, 0)) by {
        assert forall|t: Seq<char>| #[trigger] set![ascii(a)].contains(t) implies exists|x: Prop|
            #[trigger] near(a, x, 0) && ascii(x) == t by {
            assert(near(a, a, 0) && ascii(a) == t);
        }
    }
    lemma_capped_charted(a, seq![a], b, set![ascii(a)], 1, 1, max);
}

/// A distance is found wherever there is a path as short as asked for and not too much to
/// search on the way.
pub proof fn law_distance_found(a: Prop, b: Prop, max: nat, n: nat)
    requires
        plain(a),
        rewrites_in(a, b, n),
        n <= max,
        forall|texts: Set<Seq<char>>, count: nat| #[trigger]
            charted(a, texts, count, max) ==> count < 20_000,
    ensures
        distance(a, b, max) matches Some(d) && d <= n,
{
    if cut_short(a, b, max) {
        law_cut_short_is_large(a, b, max);
    }
    law_distance_least(a, b, max, n);
}

} // verus!
