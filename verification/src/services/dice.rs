//! Random draws that follow from a seed.
//!
//! What a generator draws next, and what it holds afterwards, rests on what it holds now
//! alone. So everything that is drawn from a seeded generator is a function of the seed.

use rand::rngs::StdRng;
use rand::{Rng, SeedableRng};
use vstd::prelude::*;

verus! {

/// The generator of `rand`.
#[verifier::external_type_specification]
#[verifier::external_body]
pub struct ExStdRng(StdRng);

/// What a generator holds: the words from which everything that it will draw follows.
pub uninterp spec fn held(rng: StdRng) -> Seq<u32>;

/// What a generator holds that was seeded with a number.
pub uninterp spec fn seeded(seed: u64) -> Seq<u32>;

/// The number that is drawn from `low` to `high`, both included, and what the generator
/// holds afterwards.
pub uninterp spec fn drawn_between(held: Seq<u32>, low: u64, high: u64) -> (u64, Seq<u32>);

/// [`drawn_between`] for numbers of half the width, which take up less of what the
/// generator holds.
pub uninterp spec fn short_drawn_between(held: Seq<u32>, low: u32, high: u32) -> (u32, Seq<u32>);

/// [`drawn_between`] for bytes.
pub uninterp spec fn byte_drawn_between(held: Seq<u32>, low: u8, high: u8) -> (u8, Seq<u32>);

/// The word that is drawn, and what the generator holds afterwards.
pub uninterp spec fn word_drawn(held: Seq<u32>) -> (u64, Seq<u32>);

/// `StdRng::seed_from_u64` makes a generator whose contents follow from the seed.
#[verifier::external_body]
fn seed_generator(seed: u64) -> (r: StdRng)
    ensures
        held(r) == seeded(seed),
{
    StdRng::seed_from_u64(seed)
}

/// `Rng::gen_range` on an inclusive range of `u64`: the number is in the range, and it
/// and what the generator holds afterwards follow from what it held and from the range.
/// On an empty range it panics.
#[verifier::external_body]
fn draw_between(rng: &mut StdRng, low: u64, high: u64) -> (r: u64)
    requires
        low <= high,
    ensures
        low <= r <= high,
        (r, held(*final(rng))) == drawn_between(held(*old(rng)), low, high),
{
    rng.gen_range(low..=high)
}

/// `Rng::gen_range` on an inclusive range of `u32`, as [`draw_between`].
#[verifier::external_body]
fn draw_short_between(rng: &mut StdRng, low: u32, high: u32) -> (r: u32)
    requires
        low <= high,
    ensures
        low <= r <= high,
        (r, held(*final(rng))) == short_drawn_between(held(*old(rng)), low, high),
{
    rng.gen_range(low..=high)
}

/// `Rng::gen_range` on an inclusive range of `u8`, as [`draw_between`].
#[verifier::external_body]
fn draw_byte_between(rng: &mut StdRng, low: u8, high: u8) -> (r: u8)
    requires
        low <= high,
    ensures
        low <= r <= high,
        (r, held(*final(rng))) == byte_drawn_between(held(*old(rng)), low, high),
{
    rng.gen_range(low..=high)
}

/// `Rng::gen::<u64>`: the word and what the generator holds afterwards follow from what
/// it held.
#[verifier::external_body]
fn draw_word(rng: &mut StdRng) -> (r: u64)
    ensures
        (r, held(*final(rng))) == word_drawn(held(*old(rng))),
{
    rng.gen::<u64>()
}

/// `Rng::gen_ratio` with one in two draws a word and says whether it lies in the lower
/// half.
#[verifier::external_body]
fn draw_coin(rng: &mut StdRng) -> (r: bool)
    ensures
        r == (word_drawn(held(*old(rng))).0 < 0x8000_0000_0000_0000),
        held(*final(rng)) == word_drawn(held(*old(rng))).1,
{
    rng.gen_ratio(1, 2)
}

/// How many values a draw of [`Dice::unit`] can have.
pub const UNITS: u64 = 0x20_0000_0000_0000;

/// How many of those values one word of the generator is thinned out by.
pub const WORDS_PER_UNIT: u64 = 0x800;

/// One of `UNITS` values, and what the generator holds afterwards.
pub open spec fn unit_drawn(held: Seq<u32>) -> (int, Seq<u32>) {
    (word_drawn(held).0 as int / WORDS_PER_UNIT as int, word_drawn(held).1)
}

/// A fair coin, and what the generator holds afterwards.
pub open spec fn coin_drawn(held: Seq<u32>) -> (bool, Seq<u32>) {
    (word_drawn(held).0 < 0x8000_0000_0000_0000, word_drawn(held).1)
}

/// A position in a list of `n`, and what the generator holds afterwards.
pub open spec fn index_drawn(held: Seq<u32>, n: int) -> (int, Seq<u32>) {
    count_drawn(held, 0, n - 1)
}

/// A number from `low` to `high`, and what the generator holds afterwards.
pub open spec fn count_drawn(held: Seq<u32>, low: int, high: int) -> (int, Seq<u32>) {
    let d = drawn_between(held, low as u64, high as u64);
    (if low <= d.0 <= high {
        d.0 as int
    } else {
        low
    }, d.1)
}

/// A number of passes from one to `most`, and what the generator holds afterwards.
pub open spec fn passes_drawn(held: Seq<u32>, most: u8) -> (nat, Seq<u32>) {
    let d = byte_drawn_between(held, 1, most);
    (if 1 <= d.0 <= most {
        d.0 as nat
    } else if most == 0 {
        0
    } else {
        1
    }, d.1)
}

/// A number that is drawn between two bounds is the number that the generator gives; a
/// position in a list is such a number, from the first position to the last.
pub proof fn law_count_drawn(held: Seq<u32>, low: int, high: int)
    requires
        0 <= low <= high <= u64::MAX,
    ensures
        count_drawn(held, low, high).1 == drawn_between(held, low as u64, high as u64).1,
        low <= drawn_between(held, low as u64, high as u64).0 <= high ==> count_drawn(
            held,
            low,
            high,
        ).0 == drawn_between(held, low as u64, high as u64).0,
        low <= count_drawn(held, low, high).0 <= high,
        index_drawn(held, high + 1) == count_drawn(held, 0, high),
{
}

/// A number of passes is the byte that the generator gives, between one and the bound.
pub proof fn law_passes_drawn(held: Seq<u32>, most: u8)
    requires
        most >= 1,
    ensures
        passes_drawn(held, most).1 == byte_drawn_between(held, 1, most).1,
        1 <= byte_drawn_between(held, 1, most).0 <= most ==> passes_drawn(held, most).0
            == byte_drawn_between(held, 1, most).0,
        1 <= passes_drawn(held, most).0 <= most,
{
}

/// A unit is a word without its lowest bits: equally many words give each of the values, in
/// order. A coin shows heads for the lower half of the words. Both take up one word.
pub proof fn law_word_shares(held: Seq<u32>)
    ensures
        ({
            let word = word_drawn(held).0;
            let k = unit_drawn(held).0;
            &&& 0 <= k < UNITS
            &&& k * 2048 <= word < (k + 1) * 2048
            &&& UNITS * 2048 == u64::MAX + 1
            &&& coin_drawn(held).0 <==> 2 * word <= u64::MAX
            &&& unit_drawn(held).1 == word_drawn(held).1
            &&& coin_drawn(held).1 == word_drawn(held).1
        }),
{
}

/// A source of draws.
pub struct Dice {
    rng: StdRng,
}

impl View for Dice {
    type V = Seq<u32>;

    closed spec fn view(&self) -> Seq<u32> {
        held(self.rng)
    }
}

impl Dice {
    /// Dice whose draws follow from `seed`.
    pub fn new(seed: u64) -> (r: Dice)
        ensures
            r@ == seeded(seed),
    {
        Dice { rng: seed_generator(seed) }
    }

    /// A number from `low` to `high`.
    pub fn count(&mut self, low: usize, high: usize) -> (r: usize)
        requires
            low <= high,
        ensures
            low <= r <= high,
            (r as int, final(self)@) == count_drawn(old(self)@, low as int, high as int),
    {
        draw_between(&mut self.rng, low as u64, high as u64) as usize
    }

    /// A position in a list of `n`.
    pub fn index(&mut self, n: usize) -> (r: usize)
        requires
            n > 0,
        ensures
            r < n,
            (r as int, final(self)@) == index_drawn(old(self)@, n as int),
    {
        self.count(0, n - 1)
    }

    /// One of four values.
    pub fn quarter(&mut self) -> (r: u32)
        ensures
            r < 4,
            (r, final(self)@) == short_drawn_between(old(self)@, 0, 3),
    {
        draw_short_between(&mut self.rng, 0, 3)
    }

    /// A number of passes, from one to `most`.
    pub fn passes(&mut self, most: u8) -> (r: u8)
        requires
            most > 0,
        ensures
            1 <= r <= most,
            (r as nat, final(self)@) == passes_drawn(old(self)@, most),
    {
        draw_byte_between(&mut self.rng, 1, most)
    }

    /// A fair coin.
    pub fn coin(&mut self) -> (r: bool)
        ensures
            (r, final(self)@) == coin_drawn(old(self)@),
    {
        draw_coin(&mut self.rng)
    }

    /// One of [`UNITS`] values.
    pub fn unit(&mut self) -> (r: u64)
        ensures
            r < UNITS,
            (r as int, final(self)@) == unit_drawn(old(self)@),
    {
        draw_word(&mut self.rng) / WORDS_PER_UNIT
    }
}

} // verus!
