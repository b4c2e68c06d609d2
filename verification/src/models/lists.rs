//! Joining lists.

use vstd::prelude::*;

verus! {

/// `f(0)`, `f(1)` and so on up to `f(n - 1)`, joined.
pub open spec fn joined_upto<T>(n: int, f: spec_fn(int) -> Seq<T>) -> Seq<T>
    decreases n,
{
    if n <= 0 {
        seq![]
    } else {
        joined_upto(n - 1, f) + f(n - 1)
    }
}

/// What is in the joined lists is in one of them, and the other way round.
pub proof fn lemma_joined_upto<T>(n: int, f: spec_fn(int) -> Seq<T>, x: T)
    ensures
        joined_upto(n, f).contains(x) <==> exists|i: int| 0 <= i < n && #[trigger] f(i).contains(x),
    decreases n,
{
    if n > 0 {
        lemma_joined_upto(n - 1, f, x);
        lemma_in_joined(joined_upto(n - 1, f), f(n - 1), x);
        if joined_upto(n - 1, f).contains(x) {
            let i = choose|i: int| 0 <= i < n - 1 && #[trigger] f(i).contains(x);
            assert(0 <= i < n && f(i).contains(x));
        }
        if exists|i: int| 0 <= i < n && #[trigger] f(i).contains(x) {
            let i = choose|i: int| 0 <= i < n && #[trigger] f(i).contains(x);
            if i < n - 1 {
                assert(0 <= i < n - 1 && f(i).contains(x));
            }
        }
    }
}

/// Joined lists keep the order of the lists: of two places in them, the earlier one comes
/// from the same list or from an earlier one.
pub proof fn lemma_joined_order<T>(n: int, f: spec_fn(int) -> Seq<T>, a: int, b: int) -> (r: (
    int,
    int,
))
    requires
        0 <= a < b < joined_upto(n, f).len(),
    ensures
        0 <= r.0 <= r.1 < n,
        f(r.0).contains(joined_upto(n, f)[a]),
        f(r.1).contains(joined_upto(n, f)[b]),
    decreases n,
{
    let before = joined_upto(n - 1, f);
    let whole = joined_upto(n, f);
    assert(whole == before + f(n - 1));
    if b < before.len() {
        assert(whole[a] == before[a] && whole[b] == before[b]);
        lemma_joined_order(n - 1, f, a, b)
    } else {
        assert(whole[b] == f(n - 1)[b - before.len()]);
        if a < before.len() {
            assert(whole[a] == before[a]);
            assert(before.contains(before[a]));
            lemma_joined_upto(n - 1, f, before[a]);
            let i = choose|i: int| 0 <= i < n - 1 && #[trigger] f(i).contains(before[a]);
            (i, n - 1)
        } else {
            assert(whole[a] == f(n - 1)[a - before.len()]);
            (n - 1, n - 1)
        }
    }
}

/// Empty lists join to an empty list.
pub proof fn lemma_joined_empty<T>(n: int, f: spec_fn(int) -> Seq<T>)
    requires
        forall|i: int| 0 <= i < n ==> (#[trigger] f(i)).len() == 0,
    ensures
        joined_upto(n, f) == Seq::<T>::empty(),
    decreases n,
{
    if n > 0 {
        lemma_joined_empty(n - 1, f);
        assert(f(n - 1).len() == 0);
        assert(joined_upto(n, f) =~= Seq::<T>::empty());
    }
}

/// Membership in two joined lists.
pub proof fn lemma_in_joined<T>(a: Seq<T>, b: Seq<T>, x: T)
    ensures
        (a + b).contains(x) <==> (a.contains(x) || b.contains(x)),
{
    let ab = a + b;
    if a.contains(x) {
        let i = choose|i: int| 0 <= i < a.len() && a[i] == x;
        assert(ab[i] == x);
    }
    if b.contains(x) {
        let i = choose|i: int| 0 <= i < b.len() && b[i] == x;
        assert(ab[a.len() + i] == x);
    }
    if ab.contains(x) {
        let i = choose|i: int| 0 <= i < ab.len() && ab[i] == x;
        if i < a.len() {
            assert(a[i] == x);
        } else {
            assert(b[i - a.len()] == x);
        }
    }
}

/// Membership in a list with one item more.
pub proof fn lemma_in_pushed<T>(a: Seq<T>, y: T, x: T)
    ensures
        a.push(y).contains(x) <==> (a.contains(x) || x == y),
{
    assert(a.push(y) =~= a + seq![y]);
    lemma_in_joined(a, seq![y], x);
    if x == y {
        assert(seq![y][0] == x);
    }
}

/// Positions, as integers.
pub open spec fn positions(s: Seq<usize>) -> Seq<int> {
    Seq::new(s.len(), |i: int| s[i] as int)
}

/// A copy of a list of positions.
pub fn copy_positions(s: &Vec<usize>) -> (r: Vec<usize>)
    ensures
        r@ == s@,
{
    let mut r: Vec<usize> = Vec::with_capacity(s.len());
    let mut i: usize = 0;
    while i < s.len()
        invariant
            i <= s@.len(),
            r@ == s@.take(i as int),
        decreases s@.len() - i,
    {
        r.push(s[i]);
        assert(s@.take(i as int + 1) =~= s@.take(i as int).push(s@[i as int]));
        i = i + 1;
    }
    assert(s@.take(s@.len() as int) =~= s@);
    r
}

} // verus!
