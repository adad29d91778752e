//! Hash functions that map a word to the top `dim` bits of a mixed word.
//!
//! A table of capacity `2^dim` asks its hasher for `hash(x, dim)` and uses
//! the answer as a bucket index. A hasher never changes after construction,
//! so the same key always lands in the same bucket.

use vstd::prelude::*;
use vstd::arithmetic::power2::pow2;
use vstd::arithmetic::power2::lemma_pow2_adds;
use vstd::arithmetic::power2::lemma_pow2_pos;
use vstd::arithmetic::power2::lemma2_to64;
use vstd::arithmetic::power2::lemma2_to64_rest;
use vstd::arithmetic::div_mod::lemma_multiply_divide_lt;
use vstd::bits::lemma_u64_shr_is_div;
use vstd::arithmetic::power2::is_pow2;
use crate::powers::two_to;
use rand::Rng;
use rand::SeedableRng;
use rand_pcg::Mcg128Xsl64;

verus! {

/// A hash function from words to bucket indices of a table with `2^dim` buckets.
pub trait DimHasher {
    /// The index this hasher assigns to `x` in a table of `2^dim` buckets.
    spec fn hashed(&self, x: u64, dim: u32) -> u64;

    /// Computes the bucket of `x`. The answer depends on `x`, `dim` and the
    /// hasher alone, and lies below `2^dim`.
    fn hash(&self, x: u64, dim: u32) -> (y: u64)
        requires
            1 <= dim <= u64::BITS,
        ensures
            y == self.hashed(x, dim),
            (y as int) < pow2(dim as nat),
    ;

    /// The index of every word lies below the number of buckets.
    proof fn lemma_hashed_in_range(&self, x: u64, dim: u32)
        requires
            1 <= dim <= u64::BITS,
        ensures
            (self.hashed(x, dim) as int) < pow2(dim as nat),
    ;
}

/// The top `dim` bits of a word, moved down to the low end.
pub open spec fn top_bits(word: u64, dim: u32) -> u64
    recommends
        1 <= dim <= u64::BITS,
{
    word >> ((u64::BITS - dim) as u64)
}

/// The top `dim` bits of any word form a number below `2^dim`.
pub proof fn lemma_top_bits_below(word: u64, dim: u32)
    requires
        1 <= dim <= u64::BITS,
    ensures
        (top_bits(word, dim) as int) < pow2(dim as nat),
{
    let shift: u64 = (u64::BITS - dim) as u64;
    lemma_u64_shr_is_div(word, shift);
    lemma_pow2_adds(shift as nat, dim as nat);
    lemma_pow2_pos(shift as nat);
    lemma2_to64_rest();
    assert(pow2(64) == 0x1_0000_0000_0000_0000);
    assert((word as int) < pow2(shift as nat) * pow2(dim as nat));
    lemma_multiply_divide_lt(word as int, pow2(shift as nat) as int, pow2(dim as nat) as int);
}

/// Takes the top `dim` bits of a word.
pub fn take_top_bits(word: u64, dim: u32) -> (y: u64)
    requires
        1 <= dim <= u64::BITS,
    ensures
        y == top_bits(word, dim),
        (y as int) < pow2(dim as nat),
{
    proof {
        lemma_top_bits_below(word, dim);
    }
    word >> (u64::BITS - dim)
}

/// The pseudo-random generator of `rand_pcg` that the hashers draw from,
/// carried as an opaque value.
#[verifier::external_type_specification]
#[verifier::external_body]
pub struct ExMcg128Xsl64(rand_pcg::Mcg128Xsl64);

/// The 128-bit state that a generator holds: its only content.
pub uninterp spec fn generator_state(rng: Mcg128Xsl64) -> u128;

/// The state of the generator that `seed_from_u64` builds from a seed.
pub uninterp spec fn seed_state(seed: u64) -> u128;

/// What `random_range(0..high)` does to a generator in a given state: the
/// word it hands out, and the state it leaves behind.
pub uninterp spec fn draw_step(state: u128, high: u64) -> (u64, u128);

/// Calls `SeedableRng::seed_from_u64` of `rand_core` for the generator of
/// `rand_pcg`. The call expands the seed by fixed arithmetic, so the state
/// of the generator is a function of the seed alone; the contract gives
/// that function a name and claims nothing else.
#[verifier::external_body]
fn generator_from_seed(seed: u64) -> (rng: Mcg128Xsl64)
    ensures
        generator_state(rng) == seed_state(seed),
{
    Mcg128Xsl64::seed_from_u64(seed)
}

/// Calls `SeedableRng::from_os_rng` of `rand_core`, which seeds the
/// generator from the entropy of the operating system. Nothing is claimed
/// of the generator that comes back. The call aborts the program when the
/// operating system can supply no entropy.
#[verifier::external_body]
fn generator_from_entropy() -> (rng: Mcg128Xsl64) {
    Mcg128Xsl64::from_os_rng()
}

/// Calls `Rng::random_range` of `rand` with the range `0..high`. The call
/// panics on an empty range, hence the precondition. The contract claims
/// that the word lies in the range, and that word and new state are
/// functions of the old state and the bound, which it names.
#[verifier::external_body]
fn draw_below(rng: &mut Mcg128Xsl64, high: u64) -> (word: u64)
    requires
        high > 0,
    ensures
        word < high,
        (word, generator_state(*final(rng))) == draw_step(generator_state(*old(rng)), high),
{
    rng.random_range(0..high)
}

/// The state of a generator after `count` draws below `high`.
pub open spec fn state_after(state: u128, high: u64, count: nat) -> u128
    decreases count,
{
    if count == 0 {
        state
    } else {
        draw_step(state_after(state, high, (count - 1) as nat), high).1
    }
}

/// The word that the draw number `index` (counted from zero) hands out
/// when a generator in `state` is asked again and again for a word below `high`.
pub open spec fn nth_draw(state: u128, high: u64, index: nat) -> u64 {
    draw_step(state_after(state, high, index), high).0
}

/// Multiplicative hashing: multiply by a fixed odd word, keep the high bits.
#[derive(Debug)]
pub struct Multiplicative {
    z: u64,
}

impl Multiplicative {
    #[verifier::type_invariant]
    spec fn odd(self) -> bool {
        self.z % 2 == 1
    }

    /// The odd word that this hasher multiplies by.
    pub closed spec fn multiplier_spec(&self) -> u64 {
        self.z
    }

    /// The multiplier that a draw below `u64::MAX / 2` turns into.
    pub open spec fn odd_from(draw: u64) -> u64 {
        (2 * draw + 1) as u64
    }

    /// Returns the odd word that this hasher multiplies by.
    #[verifier::when_used_as_spec(multiplier_spec)]
    pub fn multiplier(&self) -> (z: u64)
        ensures
            z == self.multiplier_spec(),
            z % 2 == 1,
    {
        proof {
            use_type_invariant(self);
        }
        self.z
    }

    /// A hasher whose multiplier is drawn with the entropy of the operating
    /// system: some odd word that a draw below `u64::MAX / 2` turns into.
    pub fn new() -> (h: Self)
        ensures
            h.multiplier() % 2 == 1,
            h.multiplier() <= u64::MAX - 2,
    {
        let rng = generator_from_entropy();
        Self { z: Self::odd_random_range(rng) }
    }

    /// A hasher whose multiplier is the first draw of the generator seeded with `state`.
    pub fn with_seed(state: u64) -> (h: Self)
        ensures
            h.multiplier() == Self::odd_from(draw_step(seed_state(state), u64::MAX / 2).0),
    {
        let rng = generator_from_seed(state);
        Self { z: Self::odd_random_range(rng) }
    }

    /// A hasher that multiplies by `z` with its lowest bit forced to one.
    pub fn with_multiplier(z: u64) -> (h: Self)
        ensures
            h.multiplier() == z | 1,
    {
        assert((z | 1) % 2 == 1) by (bit_vector);
        Self { z: z | 1 }
    }

    /// Draws a word below `u64::MAX / 2` from `rng` and makes an odd
    /// multiplier of it.
    pub fn odd_random_range(rng: Mcg128Xsl64) -> (z: u64)
        ensures
            z == Self::odd_from(draw_step(generator_state(rng), u64::MAX / 2).0),
            z % 2 == 1,
            z <= u64::MAX - 2,
    {
        let mut rng = rng;
        let draw = draw_below(&mut rng, u64::MAX / 2);
        Self::odd_from_draw(draw)
    }

    /// Makes a drawn word odd by doubling it and adding one.
    pub fn odd_from_draw(draw: u64) -> (z: u64)
        requires
            draw < u64::MAX / 2,
        ensures
            z == Self::odd_from(draw),
            z == 2 * draw + 1,
            z % 2 == 1,
            z <= u64::MAX - 2,
    {
        2 * draw + 1
    }
}

impl Clone for Multiplicative {
    /// A copy with the same multiplier, which therefore hashes alike.
    fn clone(&self) -> (copy: Self)
        ensures
            copy == *self,
    {
        proof {
            use_type_invariant(self);
        }
        Self { z: self.z }
    }
}

impl DimHasher for Multiplicative {
    open spec fn hashed(&self, x: u64, dim: u32) -> u64 {
        top_bits(vstd::wrapping::u64_specs::wrapping_mul(self.multiplier(), x), dim)
    }

    fn hash(&self, x: u64, dim: u32) -> (y: u64) {
        take_top_bits(self.z.wrapping_mul(x), dim)
    }

    proof fn lemma_hashed_in_range(&self, x: u64, dim: u32) {
        lemma_top_bits_below(vstd::wrapping::u64_specs::wrapping_mul(self.multiplier(), x), dim);
    }
}

/// Whether `r` can be the digit width of a tabulation hasher: a power of
/// two for which a row of `2^r` words can be indexed by a machine word.
pub open spec fn digit_width_ok(r: u32) -> bool {
    is_pow2(r as int) && pow2(r as nat) <= usize::MAX
}

/// The digit number `i` of `x` when `x` is cut into digits of `r` bits,
/// counted from the low end.
pub open spec fn digit(x: u64, i: nat, r: u32) -> u64 {
    (x >> ((i * r) as u64)) & (u64::MAX >> ((u64::BITS - r) as u64))
}

/// The XOR of the entries that the first `rows` digits of `x` select, one
/// entry from each row.
pub open spec fn mix(table: Seq<Seq<u64>>, r: u32, x: u64, rows: nat) -> u64
    decreases rows,
{
    if rows == 0 {
        0
    } else {
        mix(table, r, x, (rows - 1) as nat) ^ table[rows - 1][digit(x, (rows - 1) as nat, r) as int]
    }
}

/// The table that a generator in `state` fills row by row: `64 / r` rows
/// of `2^r` words, each the next draw below `u64::MAX`.
pub open spec fn table_from(state: u128, r: u32) -> Seq<Seq<u64>> {
    Seq::new(
        (u64::BITS / r) as nat,
        |i: int| Seq::new(pow2(r as nat), |j: int| nth_draw(state, u64::MAX, (i * pow2(r as nat) + j) as nat)),
    )
}

/// The rows of a table as sequences of words.
pub open spec fn rows_of(tab: Vec<Vec<u64>>) -> Seq<Seq<u64>> {
    Seq::new(tab@.len(), |i: int| tab@[i]@)
}

/// The acceptable digit widths are the powers of two up to 32 whose power
/// of two fits in a machine word. Each divides the width of a word, so
/// the digits of a word are `64 / r` and leave no bit out.
pub proof fn lemma_digit_widths(r: u32)
    ensures
        digit_width_ok(r) <==> (r == 1 || r == 2 || r == 4 || r == 8 || r == 16 || r == 32) && pow2(r as nat)
            <= usize::MAX,
        digit_width_ok(r) ==> (u64::BITS / r) * r == u64::BITS,
{
    reveal_with_fuel(is_pow2, 8);
    if pow2(r as nat) <= usize::MAX {
        crate::powers::lemma_capacity_exponent(r as nat);
    }
    assert((r == 1 || r == 2 || r == 4 || r == 8 || r == 16 || r == 32) ==> (64u32 / r) * r == 64u32)
        by (bit_vector);
}

/// A digit width that is acceptable is at least one and below the width of a word.
pub proof fn lemma_digit_width_bounds(r: u32)
    requires
        digit_width_ok(r),
    ensures
        1 <= r < u64::BITS,
        r < usize::BITS,
{
    reveal(is_pow2);
    crate::powers::lemma_capacity_exponent(r as nat);
}

/// A digit of `r` bits is a number below `2^r`.
pub proof fn lemma_digit_below(x: u64, i: nat, r: u32)
    requires
        1 <= r < u64::BITS,
    ensures
        (digit(x, i, r) as int) < pow2(r as nat),
{
    let shifted: u64 = x >> ((i * r) as u64);
    let mask: u64 = u64::MAX >> ((u64::BITS - r) as u64);
    assert(shifted & mask <= mask) by (bit_vector);
    lemma_top_bits_below(u64::MAX, r);
}

/// Tabulation hashing: cut the word into digits, look each digit up in a
/// row of random words of its own, and XOR what was found.
pub struct Tabulation {
    r: u32,
    tab: Vec<Vec<u64>>,
}

impl Tabulation {
    #[verifier::type_invariant]
    spec fn shaped(self) -> bool {
        &&& digit_width_ok(self.r)
        &&& self.tab@.len() == u64::BITS / self.r
        &&& forall|i: int| 0 <= i < self.tab@.len() ==> (#[trigger] self.tab@[i])@.len() == pow2(self.r as nat)
    }

    /// The width of a digit in bits.
    pub closed spec fn digit_width(&self) -> u32 {
        self.r
    }

    /// The rows of random words, one row for each digit position.
    pub closed spec fn table(&self) -> Seq<Seq<u64>> {
        rows_of(self.tab)
    }

    /// Returns the width of a digit in bits: a power of two, one at least
    /// and below the width of a word.
    pub fn r(&self) -> (r: u32)
        ensures
            r == self.digit_width(),
            digit_width_ok(r),
            1 <= r < u64::BITS,
    {
        proof {
            use_type_invariant(self);
            lemma_digit_width_bounds(self.r);
        }
        self.r
    }

    /// Returns the rows of random words: `64 / r` rows of `2^r` words each.
    pub fn tab(&self) -> (tab: &Vec<Vec<u64>>)
        ensures
            rows_of(*tab) == self.table(),
            tab@.len() == u64::BITS / self.digit_width(),
            forall|i: int| 0 <= i < tab@.len() ==> (#[trigger] tab@[i])@.len() == pow2(self.digit_width() as nat),
    {
        proof {
            use_type_invariant(self);
        }
        &self.tab
    }

    /// A hasher with digits of `r` bits whose table is filled with the
    /// entropy of the operating system.
    pub fn new(r: u32) -> (h: Self)
        requires
            digit_width_ok(r),
        ensures
            h.digit_width() == r,
            h.table().len() == u64::BITS / r,
            forall|i: int| 0 <= i < h.table().len() ==> (#[trigger] h.table()[i]).len() == pow2(r as nat),
            forall|i: int, j: int|
                0 <= i < h.table().len() && 0 <= j < h.table()[i].len() ==> #[trigger] h.table()[i][j] < u64::MAX,
    {
        let rng = generator_from_entropy();
        let tab = Self::make_tab(r, rng);
        Self { r, tab }
    }

    /// A hasher with digits of `r` bits whose table holds the draws of the
    /// generator seeded with `state`, in the order in which they come.
    pub fn with_seed(r: u32, state: u64) -> (h: Self)
        requires
            digit_width_ok(r),
        ensures
            h.digit_width() == r,
            h.table() == table_from(seed_state(state), r),
    {
        let rng = generator_from_seed(state);
        let tab = Self::make_tab(r, rng);
        Self { r, tab }
    }

    /// Fills a table of `64 / r` rows and `2^r` columns with draws below
    /// `u64::MAX` from `rng`, row by row.
    pub fn make_tab(r: u32, rng: Mcg128Xsl64) -> (tab: Vec<Vec<u64>>)
        requires
            digit_width_ok(r),
        ensures
            rows_of(tab) == table_from(generator_state(rng), r),
            tab@.len() == u64::BITS / r,
            forall|i: int| 0 <= i < tab@.len() ==> (#[trigger] tab@[i])@.len() == pow2(r as nat),
            forall|i: int, j: int| 0 <= i < tab@.len() && 0 <= j < tab@[i]@.len() ==> #[trigger] tab@[i]@[j] < u64::MAX,
    {
        proof {
            lemma_digit_width_bounds(r);
        }
        let ghost start = generator_state(rng);
        let mut rng = rng;
        let n_rows: usize = (u64::BITS / r) as usize;
        let n_cols: usize = two_to(r);
        let mut tab: Vec<Vec<u64>> = Vec::with_capacity(n_rows);
        let ghost mut drawn: nat = 0;
        let mut i: usize = 0;
        while i < n_rows
            invariant
                i <= n_rows,
                n_rows == u64::BITS / r,
                n_cols == pow2(r as nat),
                tab@.len() == i,
                drawn == i * n_cols,
                generator_state(rng) == state_after(start, u64::MAX, drawn),
                forall|a: int| 0 <= a < i ==> (#[trigger] tab@[a])@.len() == n_cols,
                forall|a: int, b: int| 0 <= a < i && 0 <= b < n_cols ==> #[trigger] tab@[a]@[b] < u64::MAX,
                forall|a: int, b: int|
                    0 <= a < i && 0 <= b < n_cols ==> (#[trigger] tab@[a]@[b]) == nth_draw(
                        start,
                        u64::MAX,
                        (a * n_cols + b) as nat,
                    ),
            decreases n_rows - i,
        {
            let mut row: Vec<u64> = Vec::with_capacity(n_cols);
            let mut j: usize = 0;
            while j < n_cols
                invariant
                    j <= n_cols,
                    row@.len() == j,
                    drawn == i * n_cols + j,
                    generator_state(rng) == state_after(start, u64::MAX, drawn),
                    forall|b: int| 0 <= b < j ==> #[trigger] row@[b] < u64::MAX,
                    forall|b: int|
                        0 <= b < j ==> (#[trigger] row@[b]) == nth_draw(start, u64::MAX, (i * n_cols + b) as nat),
                decreases n_cols - j,
            {
                let word = draw_below(&mut rng, u64::MAX);
                row.push(word);
                proof {
                    drawn = drawn + 1;
                }
                j = j + 1;
            }
            tab.push(row);
            proof {
                assert((i + 1) * n_cols == i * n_cols + n_cols) by (nonlinear_arith);
            }
            i = i + 1;
        }
        proof {
            assert(rows_of(tab) =~~= table_from(start, r));
        }
        tab
    }

    /// Looks the digit number `i` of `x` up in row `i`.
    fn get(&self, i: usize, x: u64) -> (word: u64)
        requires
            i < self.table().len(),
        ensures
            word == self.table()[i as int][digit(x, i as nat, self.digit_width()) as int],
    {
        proof {
            use_type_invariant(self);
            lemma_digit_width_bounds(self.r);
            lemma_digit_below(x, i as nat, self.r);
            assert(i * self.r <= u64::BITS - self.r) by (nonlinear_arith)
                requires
                    i < u64::BITS / self.r,
                    1 <= self.r < u64::BITS,
            ;
        }
        let j = x >> (i as u32 * self.r) & u64::MAX >> (u64::BITS - self.r);
        self.tab[i][j as usize]
    }
}

impl Clone for Tabulation {
    /// A copy with the same digit width and the same table, which
    /// therefore hashes alike.
    fn clone(&self) -> (copy: Self)
        ensures
            copy.digit_width() == self.digit_width(),
            copy.table() == self.table(),
            forall|x: u64, dim: u32| #[trigger] copy.hashed(x, dim) == self.hashed(x, dim),
    {
        proof {
            use_type_invariant(self);
        }
        let mut tab: Vec<Vec<u64>> = Vec::with_capacity(self.tab.len());
        let mut i: usize = 0;
        while i < self.tab.len()
            invariant
                i <= self.tab@.len(),
                tab@.len() == i,
                forall|a: int| 0 <= a < i ==> (#[trigger] tab@[a])@ == self.tab@[a]@,
            decreases self.tab@.len() - i,
        {
            let row = &self.tab[i];
            let mut words: Vec<u64> = Vec::with_capacity(row.len());
            let mut j: usize = 0;
            while j < row.len()
                invariant
                    j <= row@.len(),
                    words@ == row@.take(j as int),
                decreases row@.len() - j,
            {
                words.push(row[j]);
                proof {
                    assert(row@.take(j as int).push(row@[j as int]) =~= row@.take(j + 1));
                }
                j = j + 1;
            }
            proof {
                assert(row@.take(j as int) =~= row@);
            }
            tab.push(words);
            i = i + 1;
        }
        proof {
            assert(rows_of(tab) =~= rows_of(self.tab));
        }
        Self { r: self.r, tab }
    }
}

impl DimHasher for Tabulation {
    open spec fn hashed(&self, x: u64, dim: u32) -> u64 {
        top_bits(mix(self.table(), self.digit_width(), x, self.table().len()), dim)
    }

    fn hash(&self, x: u64, dim: u32) -> (y: u64) {
        let mut tabs: u64 = 0;
        let mut i: usize = 0;
        while i < self.tab.len()
            invariant
                i <= self.tab@.len(),
                self.table().len() == self.tab@.len(),
                tabs == mix(self.table(), self.digit_width(), x, i as nat),
            decreases self.tab@.len() - i,
        {
            tabs = tabs ^ self.get(i, x);
            i = i + 1;
        }
        take_top_bits(tabs, dim)
    }

    proof fn lemma_hashed_in_range(&self, x: u64, dim: u32) {
        lemma_top_bits_below(mix(self.table(), self.digit_width(), x, self.table().len()), dim);
    }
}

} // verus!
