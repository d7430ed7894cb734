//! Bitmap allocator: one bit per inode or data block, allocation returns
//! the lowest clear bit, freeing clears it again.

use vstd::prelude::*;

verus! {

/// Number of bits in one group word.
pub const BITS_PER_WORD: usize = 64;

/// A bit-per-resource allocator over a row of 64-bit group words.
pub struct Bitmap {
    bits: Vec<u64>,
}

impl Bitmap {
    /// Total number of bits the map manages.
    pub closed spec fn capacity(&self) -> int {
        self.bits@.len() * BITS_PER_WORD
    }

    /// The map is small enough that every bit index fits in a `usize`.
    pub closed spec fn wf(&self) -> bool {
        self.bits@.len() * BITS_PER_WORD <= usize::MAX
    }

    /// Whether bit `i` is set (its resource allocated).
    pub closed spec fn bit_set(&self, i: int) -> bool {
        (self.bits@[i / (BITS_PER_WORD as int)] >> ((i % (BITS_PER_WORD as int)) as u64)) & 1
            == 1
    }

    /// A map of `words * 64` clear bits.
    pub fn new(words: usize) -> (r: Bitmap)
        requires
            words * BITS_PER_WORD <= usize::MAX,
        ensures
            r.wf(),
            r.capacity() == words * BITS_PER_WORD,
            forall|i: int| 0 <= i < r.capacity() ==> !r.bit_set(i),
    {
        let bits: Vec<u64> = vec![0u64; words];
        let r = Bitmap { bits };
        proof {
            assert forall|i: int| 0 <= i < r.capacity() implies !r.bit_set(i) by {
                lemma_bit_pos(i);
                let k = (i % 64) as u64;
                assert((0u64 >> k) & 1 == 0) by (bit_vector);
            }
        }
        r
    }

    /// Allocate the lowest clear bit: set it and return its index, or
    /// report the map full.
    pub fn allocate(&mut self) -> (r: Option<usize>)
        requires
            old(self).wf(),
        ensures
            final(self).wf(),
            final(self).capacity() == old(self).capacity(),
            r is None <==> (forall|j: int| 0 <= j < old(self).capacity() ==> old(self).bit_set(j)),
            r is None ==> *final(self) == *old(self),
            r matches Some(i) ==> {
                &&& 0 <= i < old(self).capacity()
                &&& !old(self).bit_set(i as int)
                &&& forall|j: int| 0 <= j < i ==> old(self).bit_set(j)
                &&& final(self).bit_set(i as int)
                &&& forall|j: int|
                    0 <= j < final(self).capacity() && j != i ==> final(self).bit_set(j) == old(
                        self,
                    ).bit_set(j)
            },
    {
        let mut w: usize = 0;
        while w < self.bits.len()
            invariant
                *self == *old(self),
                old(self).wf(),
                w <= self.bits@.len(),
                forall|p: int| 0 <= p < w ==> #[trigger] self.bits@[p] == u64::MAX,
            decreases self.bits@.len() - w,
        {
            if self.bits[w] != u64::MAX {
                let word = self.bits[w];
                let mut k: usize = 0;
                let ghost mut mask: u64 = 0;
                proof {
                    assert(vstd::prelude::sub(1u64 << 0u64, 1) == 0 && word & 0 == 0) by (
                    bit_vector);
                }
                while k < BITS_PER_WORD
                    invariant
                        *self == *old(self),
                        old(self).wf(),
                        w < self.bits@.len(),
                        forall|p: int| 0 <= p < w ==> #[trigger] self.bits@[p] == u64::MAX,
                        word == self.bits@[w as int],
                        word != u64::MAX,
                        k <= BITS_PER_WORD,
                        mask == if k == 64 {
                            u64::MAX
                        } else {
                            vstd::prelude::sub(1u64 << (k as u64), 1)
                        },
                        word & mask == mask,
                    decreases BITS_PER_WORD - k,
                {
                    if (word >> (k as u64)) & 1 == 0 {
                        proof {
                            assert(w * 64 + k <= (self.bits@.len() - 1) * 64 + 63
                                < self.bits@.len() * 64) by (nonlinear_arith)
                                requires
                                    w < self.bits@.len(),
                                    k < 64,
                            ;
                        }
                        let i = w * BITS_PER_WORD + k;
                        let set = word | (1u64 << (k as u64));
                        self.bits[w] = set;
                        proof {
                            lemma_low_bits_set(word, mask, k as u64);
                            lemma_set_bit(word, set, k as u64);
                            lemma_found_bit(*old(self), *self, w as int, k as int, i as int);
                        }
                        return Some(i);
                    }
                    proof {
                        let kk = k as u64;
                        assert((word >> kk) & 1 == 1) by (bit_vector)
                            requires (word >> kk) & 1 != 0,
                        ;
                        assert((word & vstd::prelude::sub(1u64 << kk, 1) == vstd::prelude::sub(
                            1u64 << kk,
                            1,
                        ) && (word >> kk) & 1 == 1 && kk < 63) ==> (word & vstd::prelude::sub(
                            1u64 << vstd::prelude::add(kk, 1),
                            1,
                        ) == vstd::prelude::sub(1u64 << vstd::prelude::add(kk, 1), 1))) by (
                        bit_vector);
                        if k == 63 {
                            assert((word & vstd::prelude::sub(1u64 << 63u64, 1)
                                == vstd::prelude::sub(1u64 << 63u64, 1) && (word >> 63u64) & 1
                                == 1) ==> word == u64::MAX) by (bit_vector);
                            assert(false);
                        } else {
                            mask = vstd::prelude::sub(1u64 << ((k + 1) as u64), 1);
                        }
                    }
                    k += 1;
                }
                proof {
                    assert(word & u64::MAX == u64::MAX ==> word == u64::MAX) by (bit_vector);
                    assert(false);
                }
            }
            w += 1;
        }
        proof {
            assert forall|j: int| 0 <= j < self.capacity() implies self.bit_set(j) by {
                lemma_bit_pos(j);
                let m = self.bits@[j / 64];
                let b = (j % 64) as u64;
                assert(m == u64::MAX ==> (b < 64 ==> (m >> b) & 1 == 1)) by (bit_vector);
            }
        }
        None
    }

    /// Clear bit `i`, freeing its resource; every other bit keeps its value.
    pub fn dealloc(&mut self, i: usize)
        requires
            0 <= i < old(self).capacity(),
            old(self).bit_set(i as int),
        ensures
            final(self).capacity() == old(self).capacity(),
            !final(self).bit_set(i as int),
            forall|j: int|
                0 <= j < final(self).capacity() && j != i ==> final(self).bit_set(j) == old(
                    self,
                ).bit_set(j),
    {
        proof {
            lemma_bit_pos(i as int);
            assert(i / BITS_PER_WORD < self.bits@.len()) by (nonlinear_arith)
                requires
                    (i as int) < self.bits@.len() * 64,
                    i / BITS_PER_WORD == i as int / 64,
                    i as int / 64 * 64 <= i as int,
            ;
        }
        let w = i / BITS_PER_WORD;
        let k = i % BITS_PER_WORD;
        let word = self.bits[w];
        let cleared = word & !(1u64 << (k as u64));
        self.bits[w] = cleared;
        proof {
            lemma_clear_bit(word, cleared, k as u64);
            lemma_changed_word(*old(self), *self, w as int, k as int, i as int);
        }
    }
}

/// Splitting a bit index into its word and offset stays in range.
proof fn lemma_bit_pos(i: int)
    requires
        0 <= i,
    ensures
        0 <= i / 64,
        0 <= i % 64 < 64,
        i / 64 * 64 + i % 64 == i,
        i / 64 * 64 <= i,
{
    assert(i / 64 * 64 + i % 64 == i && 0 <= i % 64 < 64 && 0 <= i / 64 && i / 64 * 64 <= i) by (
    nonlinear_arith)
        requires 0 <= i,
    ;
}

/// A word equal to its low-bits mask has every bit below `k` set.
proof fn lemma_low_bits_set(word: u64, mask: u64, k: u64)
    requires
        k < 64,
        mask == vstd::prelude::sub(1u64 << k, 1),
        word & mask == mask,
    ensures
        forall|b: u64| b < k ==> (word >> b) & 1 == 1,
{
    assert forall|b: u64| b < k implies (word >> b) & 1 == 1 by {
        assert((word & vstd::prelude::sub(1u64 << k, 1) == vstd::prelude::sub(1u64 << k, 1) && b
            < k && k < 64) ==> (word >> b) & 1 == 1) by (bit_vector);
    }
}

/// Setting bit `k` sets it and moves no other bit.
proof fn lemma_set_bit(word: u64, set: u64, k: u64)
    requires
        k < 64,
        set == word | (1u64 << k),
    ensures
        (set >> k) & 1 == 1,
        forall|b: u64| b < 64 && b != k ==> (set >> b) & 1 == (word >> b) & 1,
{
    assert((word | (1u64 << k)) >> k & 1 == 1 && k < 64 ==> ((word | (1u64 << k)) >> k) & 1
        == 1) by (bit_vector);
    assert(k < 64 ==> ((word | (1u64 << k)) >> k) & 1 == 1) by (bit_vector);
    assert forall|b: u64| b < 64 && b != k implies (set >> b) & 1 == (word >> b) & 1 by {
        assert((b < 64 && b != k && k < 64) ==> ((word | (1u64 << k)) >> b) & 1 == (word >> b)
            & 1) by (bit_vector);
    }
}

/// Clearing bit `k` clears it and moves no other bit.
proof fn lemma_clear_bit(word: u64, cleared: u64, k: u64)
    requires
        k < 64,
        cleared == word & !(1u64 << k),
    ensures
        (cleared >> k) & 1 == 0,
        forall|b: u64| b < 64 && b != k ==> (cleared >> b) & 1 == (word >> b) & 1,
{
    assert(k < 64 ==> ((word & !(1u64 << k)) >> k) & 1 == 0) by (bit_vector);
    assert forall|b: u64| b < 64 && b != k implies (cleared >> b) & 1 == (word >> b) & 1 by {
        assert((b < 64 && b != k && k < 64) ==> ((word & !(1u64 << k)) >> b) & 1 == (word >> b)
            & 1) by (bit_vector);
    }
}

/// How changing one word of the map moves the bit view: only bits of that
/// word move, and bit `i = w * 64 + k` follows its word's bit `k`.
proof fn lemma_changed_word(b0: Bitmap, b1: Bitmap, w: int, k: int, i: int)
    requires
        0 <= w < b0.bits@.len(),
        b1.bits@ == b0.bits@.update(w, b1.bits@[w]),
        0 <= k < 64,
        i == w * 64 + k,
        forall|b: u64|
            b < 64 && b != k ==> (b1.bits@[w] >> b) & 1 == (b0.bits@[w] >> b) & 1,
    ensures
        b1.capacity() == b0.capacity(),
        forall|j: int| 0 <= j < b0.capacity() && j != i ==> b1.bit_set(j) == b0.bit_set(j),
        b1.bit_set(i) == ((b1.bits@[w] >> (k as u64)) & 1 == 1),
{
    assert(0 <= i && i / 64 == w && i % 64 == k) by (nonlinear_arith)
        requires
            i == w * 64 + k,
            0 <= k < 64,
            0 <= w,
    ;
    assert forall|j: int| 0 <= j < b0.capacity() && j != i implies b1.bit_set(j) == b0.bit_set(
        j,
    ) by {
        lemma_bit_pos(j);
        assert(j / 64 < b0.bits@.len()) by (nonlinear_arith)
            requires
                j < b0.bits@.len() * 64,
                j / 64 * 64 <= j,
        ;
        if j / 64 != w {
            assert(b1.bits@[j / 64] == b0.bits@[j / 64]);
        } else {
            assert(j % 64 != k);
        }
    }
}

/// The bit found by the scan is the lowest clear bit, and setting it is
/// the only change.
proof fn lemma_found_bit(b0: Bitmap, b1: Bitmap, w: int, k: int, i: int)
    requires
        0 <= w < b0.bits@.len(),
        0 <= k < 64,
        i == w * 64 + k,
        b1.bits@ == b0.bits@.update(w, b1.bits@[w]),
        forall|p: int| 0 <= p < w ==> #[trigger] b0.bits@[p] == u64::MAX,
        forall|b: u64| b < k ==> (b0.bits@[w] >> b) & 1 == 1,
        (b0.bits@[w] >> (k as u64)) & 1 == 0,
        (b1.bits@[w] >> (k as u64)) & 1 == 1,
        forall|b: u64|
            b < 64 && b != k ==> (b1.bits@[w] >> b) & 1 == (b0.bits@[w] >> b) & 1,
    ensures
        0 <= i < b0.capacity(),
        !b0.bit_set(i),
        forall|j: int| 0 <= j < i ==> b0.bit_set(j),
        b1.bit_set(i),
        b1.capacity() == b0.capacity(),
        forall|j: int| 0 <= j < b1.capacity() && j != i ==> b1.bit_set(j) == b0.bit_set(j),
{
    lemma_changed_word(b0, b1, w, k, i);
    assert(0 <= i && i / 64 == w && i % 64 == k && i < b0.capacity()) by (nonlinear_arith)
        requires
            i == w * 64 + k,
            0 <= k < 64,
            0 <= w < b0.bits@.len(),
            b0.capacity() == b0.bits@.len() * 64,
    ;
    assert forall|j: int| 0 <= j < i implies b0.bit_set(j) by {
        lemma_bit_pos(j);
        assert(j / 64 <= w) by (nonlinear_arith)
            requires
                j < w * 64 + k,
                0 <= k < 64,
                j / 64 * 64 <= j,
                j % 64 < 64,
                j / 64 * 64 + j % 64 == j,
        ;
        if j / 64 < w {
            let m = b0.bits@[j / 64];
            let b = (j % 64) as u64;
            assert(m == u64::MAX ==> (b < 64 ==> (m >> b) & 1 == 1)) by (bit_vector);
        } else {
            assert(j % 64 < k) by (nonlinear_arith)
                requires
                    j < w * 64 + k,
                    j / 64 == w,
                    j / 64 * 64 + j % 64 == j,
            ;
        }
    }
}

/// Law: freeing the bit an allocation returned and allocating again
/// returns the same bit — the lowest clear bit comes back first.
pub proof fn lemma_bitmap_refree(b0: Bitmap, b1: Bitmap, b2: Bitmap, x: int)
    requires
        0 <= x < b0.capacity(),
        // what `allocate` ensured when it returned `x`
        !b0.bit_set(x),
        forall|j: int| 0 <= j < x ==> b0.bit_set(j),
        b1.capacity() == b0.capacity(),
        b1.bit_set(x),
        forall|j: int| 0 <= j < b1.capacity() && j != x ==> b1.bit_set(j) == b0.bit_set(j),
        // what `dealloc(x)` ensured
        b2.capacity() == b1.capacity(),
        !b2.bit_set(x),
        forall|j: int| 0 <= j < b2.capacity() && j != x ==> b2.bit_set(j) == b1.bit_set(j),
    ensures
        // the map is back in its first state, so the next allocation
        // returns `x` again
        forall|j: int| 0 <= j < b2.capacity() ==> b2.bit_set(j) == b0.bit_set(j),
        !b2.bit_set(x),
        forall|j: int| 0 <= j < x ==> b2.bit_set(j),
{
}

} // verus!
