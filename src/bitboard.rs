//! 64-bit sets of squares.
use vstd::prelude::*;
use vstd::std_specs::bits::u64_trailing_zeros;
use vstd::std_specs::bits::axiom_u64_trailing_zeros;

verus! {

/// Bit `i` of the word `x` (false outside `0..64`).
pub open spec fn bit(x: u64, i: int) -> bool {
    0 <= i < 64 && (x >> (i as u64)) & 1 == 1
}

/// The squares of a word: the indices of its set bits.
pub open spec fn squares(x: u64) -> Set<int> {
    Set::new(|i: int| bit(x, i))
}

/// Index of the lowest set bit.
pub open spec fn lsb(x: u64) -> int {
    u64_trailing_zeros(x) as int
}

/// A set of squares, bit `i` standing for square `i` (0 = a1, 63 = h8).
#[derive(Clone, Copy, PartialEq, Eq, Structural, Debug)]
pub struct Bitboard(pub u64);

impl View for Bitboard {
    type V = Set<int>;

    open spec fn view(&self) -> Set<int> {
        squares(self.0)
    }
}

/// The de Bruijn multiplier of the lowest-bit scan.
pub const DEBRUIJN: u64 = 0x07EF3AE369961512;

/// Entry `i` of the de Bruijn decoding table.
pub open spec fn debruijn_entry(i: u64) -> u64 {
    if i == 0 { 63 } else if i == 1 { 0 } else if i == 2 { 47 } else if i == 3 { 1 }
    else if i == 4 { 56 } else if i == 5 { 48 } else if i == 6 { 27 } else if i == 7 { 2 }
    else if i == 8 { 60 } else if i == 9 { 57 } else if i == 10 { 49 } else if i == 11 { 41 }
    else if i == 12 { 37 } else if i == 13 { 28 } else if i == 14 { 16 } else if i == 15 { 3 }
    else if i == 16 { 61 } else if i == 17 { 54 } else if i == 18 { 58 } else if i == 19 { 35 }
    else if i == 20 { 52 } else if i == 21 { 50 } else if i == 22 { 42 } else if i == 23 { 21 }
    else if i == 24 { 44 } else if i == 25 { 38 } else if i == 26 { 32 } else if i == 27 { 29 }
    else if i == 28 { 23 } else if i == 29 { 17 } else if i == 30 { 11 } else if i == 31 { 4 }
    else if i == 32 { 62 } else if i == 33 { 46 } else if i == 34 { 55 } else if i == 35 { 26 }
    else if i == 36 { 59 } else if i == 37 { 40 } else if i == 38 { 36 } else if i == 39 { 15 }
    else if i == 40 { 53 } else if i == 41 { 34 } else if i == 42 { 51 } else if i == 43 { 20 }
    else if i == 44 { 43 } else if i == 45 { 31 } else if i == 46 { 22 } else if i == 47 { 10 }
    else if i == 48 { 45 } else if i == 49 { 25 } else if i == 50 { 39 } else if i == 51 { 14 }
    else if i == 52 { 33 } else if i == 53 { 19 } else if i == 54 { 30 } else if i == 55 { 9 }
    else if i == 56 { 24 } else if i == 57 { 13 } else if i == 58 { 18 } else if i == 59 { 8 }
    else if i == 60 { 12 } else if i == 61 { 7 } else if i == 62 { 6 } else { 5 }
}

/// The de Bruijn decoding table, entry by entry.
fn debruijn_lookup(i: u64) -> (r: u64)
    requires
        i < 64,
    ensures
        r == debruijn_entry(i),
{
    match i {
        0 => 63, 1 => 0, 2 => 47, 3 => 1, 4 => 56, 5 => 48, 6 => 27, 7 => 2,
        8 => 60, 9 => 57, 10 => 49, 11 => 41, 12 => 37, 13 => 28, 14 => 16, 15 => 3,
        16 => 61, 17 => 54, 18 => 58, 19 => 35, 20 => 52, 21 => 50, 22 => 42, 23 => 21,
        24 => 44, 25 => 38, 26 => 32, 27 => 29, 28 => 23, 29 => 17, 30 => 11, 31 => 4,
        32 => 62, 33 => 46, 34 => 55, 35 => 26, 36 => 59, 37 => 40, 38 => 36, 39 => 15,
        40 => 53, 41 => 34, 42 => 51, 43 => 20, 44 => 43, 45 => 31, 46 => 22, 47 => 10,
        48 => 45, 49 => 25, 50 => 39, 51 => 14, 52 => 33, 53 => 19, 54 => 30, 55 => 9,
        56 => 24, 57 => 13, 58 => 18, 59 => 8, 60 => 12, 61 => 7, 62 => 6, _ => 5,
    }
}

/// Multiplying a single bit `1 << k` by the de Bruijn constant and keeping the
/// top six bits gives an index that the table decodes back to `k`.
proof fn lemma_debruijn(k: u64)
    requires
        k < 64,
    ensures
        debruijn_entry((((1u64 << k) as nat * DEBRUIJN as nat) % 0x1_0000_0000_0000_0000nat) as u64 >> 58u64) == k,
{
    assert(k < 64 ==> debruijn_entry((((1u64 << k) as nat * 0x07EF3AE369961512u64 as nat) % 0x1_0000_0000_0000_0000nat) as u64 >> 58u64) == k) by (bit_vector);
}

/// `x & -x` keeps only the lowest set bit of a non-zero word.
proof fn lemma_isolate_lowest(x: u64, k: u64)
    requires
        x != 0,
        k < 64,
        (x >> k) & 1 == 1,
        x << ((64 - k) as u64) == 0,
    ensures
        !x < 0xFFFF_FFFF_FFFF_FFFFu64,
        x & ((!x) + 1) as u64 == 1u64 << k,
{
    assert(x != 0 ==> !x < 0xFFFF_FFFF_FFFF_FFFFu64) by (bit_vector);
    assert(x != 0 && k < 64 && (x >> k) & 1 == 1 && x << ((64 - k) as u64) == 0
        ==> x & ((!x) + 1) as u64 == 1u64 << k) by (bit_vector);
}

/// Clearing the lowest set bit with `x & (x - 1)` removes exactly that square.
proof fn lemma_clear_lowest(x: u64, k: u64)
    requires
        x != 0,
        k < 64,
        (x >> k) & 1 == 1,
        x << ((64 - k) as u64) == 0,
    ensures
        forall|i: u64| i < 64 ==> ((((x & ((x - 1) as u64)) >> i) & 1 == 1) <==> (i != k && (x >> i) & 1 == 1)),
{
    assert(x != 0 && k < 64 && (x >> k) & 1 == 1 && x << ((64 - k) as u64) == 0
        ==> forall|i: u64| i < 64 ==> ((((x & ((x - 1) as u64)) >> i) & 1 == 1) <==> (i != k && (x >> i) & 1 == 1))) by (bit_vector);
}

/// Bitwise operators act on each bit alone.
proof fn lemma_bits_pointwise(a: u64, b: u64, i: u64)
    by (bit_vector)
    ensures
        ((a & b) >> i) & 1 == 1 <==> ((a >> i) & 1 == 1 && (b >> i) & 1 == 1),
        ((a | b) >> i) & 1 == 1 <==> ((a >> i) & 1 == 1 || (b >> i) & 1 == 1),
        ((a ^ b) >> i) & 1 == 1 <==> ((a >> i) & 1 == 1) != ((b >> i) & 1 == 1),
        i < 64 ==> (((!a) >> i) & 1 == 1 <==> !((a >> i) & 1 == 1)),
        (0u64 >> i) & 1 != 1,
        i < 64 ==> ((0xFFFF_FFFF_FFFF_FFFFu64 >> i) & 1 == 1),
{
}

proof fn lemma_bit_of_single(i: u64, j: u64)
    by (bit_vector)
    requires
        i < 64,
        j < 64,
    ensures
        ((1u64 << i) >> j) & 1 == 1 <==> j == i,
{
}

pub proof fn lemma_and(a: u64, b: u64)
    ensures
        squares(a & b) == squares(a).intersect(squares(b)),
{
    assert forall|i: int| squares(a & b).contains(i) == squares(a).intersect(squares(b)).contains(i) by {
        lemma_bits_pointwise(a, b, i as u64);
    }
    assert(squares(a & b) =~= squares(a).intersect(squares(b)));
}

pub proof fn lemma_or(a: u64, b: u64)
    ensures
        squares(a | b) == squares(a).union(squares(b)),
{
    assert forall|i: int| squares(a | b).contains(i) == squares(a).union(squares(b)).contains(i) by {
        lemma_bits_pointwise(a, b, i as u64);
    }
    assert(squares(a | b) =~= squares(a).union(squares(b)));
}

pub proof fn lemma_and_not(a: u64, b: u64)
    ensures
        squares(a & !b) == squares(a).difference(squares(b)),
{
    assert forall|i: int| squares(a & !b).contains(i) == squares(a).difference(squares(b)).contains(i) by {
        lemma_bits_pointwise(a, !b, i as u64);
        lemma_bits_pointwise(b, b, i as u64);
    }
    assert(squares(a & !b) =~= squares(a).difference(squares(b)));
}

pub proof fn lemma_empty_full()
    ensures
        squares(0) == Set::<int>::empty(),
        forall|i: int| 0 <= i < 64 <==> squares(0xFFFF_FFFF_FFFF_FFFFu64).contains(i),
{
    assert forall|i: int| !squares(0).contains(i) by {
        lemma_bits_pointwise(0, 0, i as u64);
    }
    assert(squares(0) =~= Set::<int>::empty());
    assert forall|i: int| 0 <= i < 64 <==> squares(0xFFFF_FFFF_FFFF_FFFFu64).contains(i) by {
        lemma_bits_pointwise(0, 0, i as u64);
    }
}

pub proof fn lemma_single(i: u64)
    requires
        i < 64,
    ensures
        squares(1u64 << i) == set![i as int],
{
    assert forall|j: int| squares(1u64 << i).contains(j) == set![i as int].contains(j) by {
        if 0 <= j < 64 {
            lemma_bit_of_single(i, j as u64);
        }
    }
    assert(squares(1u64 << i) =~= set![i as int]);
}

/// A word is determined by its squares.
pub proof fn lemma_squares_ext(a: u64, b: u64)
    requires
        squares(a) == squares(b),
    ensures
        a == b,
{
    if a != b {
        let x = a ^ b;
        assert(a != b ==> a ^ b != 0) by (bit_vector);
        axiom_u64_trailing_zeros(x);
        let k = u64_trailing_zeros(x) as u64;
        assert(x != 0);
        assert(u64_trailing_zeros(x) != 64);
        assert(k < 64);
        assert((x >> k) & 1 == 1);
        lemma_bits_pointwise(a, b, k);
        assert(((a >> k) & 1 == 1) != ((b >> k) & 1 == 1));
        assert(bit(a, k as int) != bit(b, k as int));
        if bit(a, k as int) {
            assert(squares(a).contains(k as int));
            assert(!squares(b).contains(k as int));
        } else {
            assert(squares(b).contains(k as int));
            assert(!squares(a).contains(k as int));
        }
    }
}

/// A single-square word scans to its square: `bitscanforward(1 << i) == i`.
pub proof fn lemma_lsb_single(i: u64)
    requires
        i < 64,
    ensures
        lsb(1u64 << i) == i,
{
    let x = 1u64 << i;
    axiom_u64_trailing_zeros(x);
    assert(i < 64 ==> 1u64 << i != 0) by (bit_vector);
    let t = u64_trailing_zeros(x) as u64;
    assert(i < 64 && t < 64 && ((1u64 << i) >> t) & 1 == 1 ==> t == i) by (bit_vector);
}

/// A word with exactly two squares `i < j` pops `i` first and then `j`: after
/// the lowest bit is cleared, the word left is `1 << j`.
pub proof fn lemma_pop_two(i: u64, j: u64)
    requires
        i < j < 64,
    ensures
        lsb((1u64 << i) | (1u64 << j)) == i,
        ((1u64 << i) | (1u64 << j)) & ((((1u64 << i) | (1u64 << j)) - 1) as u64) == 1u64 << j,
        lsb(1u64 << j) == j,
{
    let x = (1u64 << i) | (1u64 << j);
    axiom_u64_trailing_zeros(x);
    assert(i < j < 64 ==> (1u64 << i) | (1u64 << j) != 0) by (bit_vector);
    let t = u64_trailing_zeros(x) as u64;
    assert(forall|k: u64| 0 <= k < t ==> #[trigger] (x >> k) & 1u64 == 0u64);
    assert((x >> i) & 1u64 == 1u64) by (bit_vector)
        requires
            x == (1u64 << i) | (1u64 << j),
            i < j < 64,
    ;
    assert(t <= i);
    assert(i < j < 64 && t <= i && (((1u64 << i) | (1u64 << j)) >> t) & 1 == 1 ==> t == i) by (bit_vector);
    assert(i < j < 64 ==> ((1u64 << i) | (1u64 << j)) & ((((1u64 << i) | (1u64 << j)) - 1) as u64) == 1u64 << j) by (bit_vector);
    lemma_lsb_single(j);
}

impl Bitboard {
    /// The empty set.
    pub fn empty() -> (r: Bitboard)
        ensures
            r.0 == 0,
    {
        Bitboard(0)
    }

    /// The all-ones word that marks a table slot never written.
    pub fn unused() -> (r: Bitboard)
        ensures
            r.0 == 0xFFFF_FFFF_FFFF_FFFFu64,
    {
        Bitboard(0xFFFF_FFFF_FFFF_FFFF)
    }

    pub fn is_empty(&self) -> (r: bool)
        ensures
            r == (self.0 == 0),
    {
        self.0 == 0
    }

    pub fn is_unused(&self) -> (r: bool)
        ensures
            r == (self.0 == 0xFFFF_FFFF_FFFF_FFFFu64),
    {
        self.0 == 0xFFFF_FFFF_FFFF_FFFF
    }

    /// Index of the least-significant set bit, by de Bruijn multiplication.
    pub fn bitscanforward(&self) -> (r: usize)
        requires
            self.0 != 0,
        ensures
            r == lsb(self.0),
            r < 64,
            bit(self.0, r as int),
            forall|j: int| 0 <= j < r ==> !bit(self.0, j),
    {
        let x = self.0;
        proof {
            axiom_u64_trailing_zeros(x);
            let k = u64_trailing_zeros(x) as u64;
            lemma_isolate_lowest(x, k);
            lemma_debruijn(k);
        }
        let low = x & (!x + 1);
        let h = low.wrapping_mul(DEBRUIJN);
        let idx = h >> 58;
        assert(h >> 58u64 < 64) by (bit_vector);
        debruijn_lookup(idx) as usize
    }

    /// Clears the least-significant set bit and returns its index.
    pub fn pop_lsb(&mut self) -> (r: usize)
        requires
            old(self).0 != 0,
        ensures
            r == lsb(old(self).0),
            r < 64,
            old(self)@.contains(r as int),
            forall|j: int| 0 <= j < r ==> !old(self)@.contains(j),
            final(self)@ == old(self)@.remove(r as int),
            final(self).0 == old(self).0 & ((old(self).0 - 1) as u64),
            final(self).0 < old(self).0,
    {
        let lsb = self.bitscanforward();
        proof {
            let x = self.0;
            assert(x != 0 ==> x & ((x - 1) as u64) < x) by (bit_vector);
            axiom_u64_trailing_zeros(x);
            lemma_clear_lowest(x, lsb as u64);
            assert(squares(x & ((x - 1) as u64)) =~= squares(x).remove(lsb as int));
        }
        self.0 = self.0 & (self.0 - 1);
        lsb
    }
}

} // verus!
