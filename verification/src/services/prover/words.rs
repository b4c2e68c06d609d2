//! Truth tables over at most six atoms, all rows at once in one machine word.
//!
//! Bit `r` of the word of a formula is its truth value in row `r`; the atom with index
//! `i` is true in the rows whose bit `i` is set.

use vstd::prelude::*;

use crate::models::formula::{atom_names, eval, lemma_eval_agree};
use crate::models::formula::{Prop, Valuation};

verus! {

/// The word of the atom with the given index.
pub open spec fn column(i: int) -> u64 {
    if i == 0 {
        0xAAAA_AAAA_AAAA_AAAA
    } else if i == 1 {
        0xCCCC_CCCC_CCCC_CCCC
    } else if i == 2 {
        0xF0F0_F0F0_F0F0_F0F0
    } else if i == 3 {
        0xFF00_FF00_FF00_FF00
    } else if i == 4 {
        0xFFFF_0000_FFFF_0000
    } else if i == 5 {
        0xFFFF_FFFF_0000_0000
    } else {
        0
    }
}

/// The word of the atom with the given index.
pub fn column_word(i: usize) -> (r: u64)
    ensures
        r == column(i as int),
{
    if i == 0 {
        0xAAAA_AAAA_AAAA_AAAA
    } else if i == 1 {
        0xCCCC_CCCC_CCCC_CCCC
    } else if i == 2 {
        0xF0F0_F0F0_F0F0_F0F0
    } else if i == 3 {
        0xFF00_FF00_FF00_FF00
    } else if i == 4 {
        0xFFFF_0000_FFFF_0000
    } else if i == 5 {
        0xFFFF_FFFF_0000_0000
    } else {
        0
    }
}

/// Bit `r` of `w`.
pub open spec fn bit(w: u64, r: u64) -> bool {
    (w >> r) & 1 == 1
}

/// The valuation of row `r`.
pub open spec fn row(names: Seq<Seq<char>>, r: u64) -> Valuation {
    |n: Seq<char>| exists|i: int| 0 <= i < names.len() && names[i] == n && bit(column(i), r)
}

/// Whether `w` is the word of `p`.
pub open spec fn is_word(w: u64, p: Prop, names: Seq<Seq<char>>) -> bool {
    forall|r: u64| r < 64 ==> #[trigger] bit(w, r) == eval(p, row(names, r))
}

/// The word operations work bit by bit.
pub proof fn lemma_bits(a: u64, b: u64, r: u64)
    requires
        r < 64,
    ensures
        bit(a & b, r) == (bit(a, r) && bit(b, r)),
        bit(a | b, r) == (bit(a, r) || bit(b, r)),
        bit(!a, r) == !bit(a, r),
        bit(!a | b, r) == (bit(a, r) ==> bit(b, r)),
        bit(!(a ^ b), r) == (bit(a, r) == bit(b, r)),
        !bit(0, r),
        bit(u64::MAX, r),
{
    assert(((a & b) >> r) & 1 == 1 <==> ((a >> r) & 1 == 1 && (b >> r) & 1 == 1)) by (bit_vector);
    assert(((a | b) >> r) & 1 == 1 <==> ((a >> r) & 1 == 1 || (b >> r) & 1 == 1)) by (bit_vector);
    assert((!a >> r) & 1 == 1 <==> !((a >> r) & 1 == 1)) by (bit_vector)
        requires
            r < 64,
    ;
    assert(((!a | b) >> r) & 1 == 1 <==> (!((a >> r) & 1 == 1) || (b >> r) & 1 == 1)) by (bit_vector)
        requires
            r < 64,
    ;
    assert((!(a ^ b) >> r) & 1 == 1 <==> (((a >> r) & 1 == 1) == ((b >> r) & 1 == 1)))
        by (bit_vector)
        requires
            r < 64,
    ;
    assert((0u64 >> r) & 1 == 0) by (bit_vector);
    assert((0xFFFF_FFFF_FFFF_FFFFu64 >> r) & 1 == 1) by (bit_vector)
        requires
            r < 64,
    ;
}

/// Some row has the given values in the columns of the six atoms.
proof fn lemma_some_row(b0: bool, b1: bool, b2: bool, b3: bool, b4: bool, b5: bool) -> (r: u64)
    ensures
        r < 64,
        bit(column(0), r) == b0,
        bit(column(1), r) == b1,
        bit(column(2), r) == b2,
        bit(column(3), r) == b3,
        bit(column(4), r) == b4,
        bit(column(5), r) == b5,
{
    let r0: u64 = if b0 { 1 } else { 0 };
    let r1: u64 = if b1 { 2 } else { 0 };
    let r2: u64 = if b2 { 4 } else { 0 };
    let r3: u64 = if b3 { 8 } else { 0 };
    let r4: u64 = if b4 { 16 } else { 0 };
    let r5: u64 = if b5 { 32 } else { 0 };
    let r: u64 = r0 | r1 | r2 | r3 | r4 | r5;
    assert(r < 64 && (r & 1 == r0) && (r & 2 == r1) && (r & 4 == r2) && (r & 8 == r3) && (r & 16
        == r4) && (r & 32 == r5)) by (bit_vector)
        requires
            r == r0 | r1 | r2 | r3 | r4 | r5,
            r0 == 0 || r0 == 1,
            r1 == 0 || r1 == 2,
            r2 == 0 || r2 == 4,
            r3 == 0 || r3 == 8,
            r4 == 0 || r4 == 16,
            r5 == 0 || r5 == 32,
    ;
    assert((0xAAAA_AAAA_AAAA_AAAAu64 >> r) & 1 == 1 <==> r & 1 != 0) by (bit_vector)
        requires
            r < 64,
    ;
    assert((0xCCCC_CCCC_CCCC_CCCCu64 >> r) & 1 == 1 <==> r & 2 != 0) by (bit_vector)
        requires
            r < 64,
    ;
    assert((0xF0F0_F0F0_F0F0_F0F0u64 >> r) & 1 == 1 <==> r & 4 != 0) by (bit_vector)
        requires
            r < 64,
    ;
    assert((0xFF00_FF00_FF00_FF00u64 >> r) & 1 == 1 <==> r & 8 != 0) by (bit_vector)
        requires
            r < 64,
    ;
    assert((0xFFFF_0000_FFFF_0000u64 >> r) & 1 == 1 <==> r & 16 != 0) by (bit_vector)
        requires
            r < 64,
    ;
    assert((0xFFFF_FFFF_0000_0000u64 >> r) & 1 == 1 <==> r & 32 != 0) by (bit_vector)
        requires
            r < 64,
    ;
    r
}

/// In a row, an atom has the value of its column.
pub proof fn lemma_row_atom(names: Seq<Seq<char>>, i: int, r: u64)
    requires
        names.no_duplicates(),
        0 <= i < names.len(),
    ensures
        row(names, r)(names[i]) == bit(column(i), r),
{
    if row(names, r)(names[i]) {
        let j = choose|j: int|
            0 <= j < names.len() && names[j] == names[i] && bit(column(j), r);
        assert(j == i);
    }
}

/// Every valuation agrees with some row on at most six atoms.
pub proof fn lemma_row_for(names: Seq<Seq<char>>, v: Valuation) -> (r: u64)
    requires
        names.no_duplicates(),
        names.len() <= 6,
    ensures
        r < 64,
        forall|i: int| 0 <= i < names.len() ==> row(names, r)(#[trigger] names[i]) == v(names[i]),
{
    let r = lemma_some_row(
        v(names[0]),
        v(names[1]),
        v(names[2]),
        v(names[3]),
        v(names[4]),
        v(names[5]),
    );
    assert forall|i: int| 0 <= i < names.len() implies row(names, r)(#[trigger] names[i]) == v(
        names[i],
    ) by {
        lemma_row_atom(names, i, r);
        assert(i == 0 || i == 1 || i == 2 || i == 3 || i == 4 || i == 5);
    }
    r
}

/// A word stays right when names are added.
pub proof fn lemma_word_kept(w: u64, p: Prop, names: Seq<Seq<char>>, more: Seq<char>)
    requires
        is_word(w, p, names),
        names.push(more).no_duplicates(),
        names.no_duplicates(),
        forall|n: Seq<char>| #[trigger] atom_names(p).contains(n) ==> names.contains(n),
    ensures
        is_word(w, p, names.push(more)),
{
    assert forall|r: u64| r < 64 implies #[trigger] bit(w, r) == eval(
        p,
        row(names.push(more), r),
    ) by {
        assert forall|n: Seq<char>| #[trigger] atom_names(p).contains(n) implies row(names, r)(n)
            == row(names.push(more), r)(n) by {
            let i = choose|i: int| 0 <= i < names.len() && names[i] == n;
            lemma_row_atom(names, i, r);
            assert(names.push(more)[i] == n);
            lemma_row_atom(names.push(more), i, r);
        }
        lemma_eval_agree(p, row(names, r), row(names.push(more), r));
    }
}

/// A word with no bit set is zero.
pub proof fn lemma_no_bits(w: u64)
    requires
        forall|r: u64| r < 64 ==> !#[trigger] bit(w, r),
    ensures
        w == 0,
{
    lemma_low_bits(w, 64);
    assert(w >> 0u64 == w) by (bit_vector);
}

/// A word whose bits from `64 - k` on are not set is zero from there on.
proof fn lemma_low_bits(w: u64, k: int)
    requires
        0 <= k <= 64,
        forall|r: u64| r < 64 ==> !#[trigger] bit(w, r),
    ensures
        k > 0 ==> w >> ((64 - k) as u64) == 0,
    decreases k,
{
    if k == 1 {
        assert(!bit(w, 63));
        assert(!((w >> 63u64) & 1 == 1) ==> w >> 63u64 == 0) by (bit_vector);
    } else if k > 1 {
        lemma_low_bits(w, k - 1);
        let s: u64 = (64 - k) as u64;
        assert(!bit(w, s));
        let s1: u64 = (64 - (k - 1)) as u64;
        assert(w >> s == 0) by (bit_vector)
            requires
                s < 63,
                s1 == s + 1,
                w >> s1 == 0,
                !((w >> s) & 1 == 1),
        ;
    }
}

} // verus!
