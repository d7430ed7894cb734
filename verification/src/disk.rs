//! In-memory store of fixed-size blocks.
//!
//! The kernel proper reaches its sectors through a device driver and a
//! write-back cache; both only move bytes. The library holds the bytes
//! themselves, one 512-byte buffer per block id, so that every file-system
//! operation can be specified against the sequence of block contents.

use vstd::prelude::*;
use crate::BLOCK_SZ;

verus! {

/// The cached contents of a block device: one 512-byte buffer per block id.
pub struct Disk {
    blocks: Vec<Vec<u8>>,
}

/// The `u32` stored little-endian at word index `k` of a block.
pub open spec fn word_at(block: Seq<u8>, k: int) -> u32
    recommends
        0 <= k,
        4 * k + 3 < block.len(),
{
    (block[4 * k] + block[4 * k + 1] * 0x100 + block[4 * k + 2] * 0x10000 + block[4 * k + 3]
        * 0x1000000) as u32
}

/// A block with the `u32` at word index `k` replaced, little-endian.
pub open spec fn put_word(block: Seq<u8>, k: int, v: u32) -> Seq<u8>
    recommends
        0 <= k,
        4 * k + 3 < block.len(),
{
    block.update(4 * k, (v % 0x100) as u8).update(4 * k + 1, (v / 0x100 % 0x100) as u8).update(
        4 * k + 2,
        (v / 0x10000 % 0x100) as u8,
    ).update(4 * k + 3, (v / 0x1000000) as u8)
}

impl View for Disk {
    type V = Seq<Seq<u8>>;

    closed spec fn view(&self) -> Seq<Seq<u8>> {
        self.blocks@.map(|i: int, b: Vec<u8>| b@)
    }
}

impl Disk {
    /// Each entry of the view is the byte sequence of the matching buffer.
    proof fn lemma_view_index(&self, b: int)
        requires
            0 <= b < self@.len(),
        ensures
            self@[b] == self.blocks@[b]@,
            self@.len() == self.blocks@.len(),
    {
    }

    /// Every block holds exactly `BLOCK_SZ` bytes.
    pub open spec fn wf(&self) -> bool {
        forall|i: int| 0 <= i < self@.len() ==> (#[trigger] self@[i]).len() == BLOCK_SZ
    }

    /// A store of `num_blocks` zeroed blocks.
    pub fn new(num_blocks: usize) -> (d: Disk)
        ensures
            d.wf(),
            d@.len() == num_blocks,
            forall|i: int, j: int|
                0 <= i < num_blocks && 0 <= j < BLOCK_SZ ==> #[trigger] d@[i][j] == 0u8,
    {
        let mut blocks: Vec<Vec<u8>> = Vec::new();
        let mut i: usize = 0;
        while i < num_blocks
            invariant
                i <= num_blocks,
                blocks@.len() == i,
                forall|p: int| 0 <= p < i ==> (#[trigger] blocks@[p])@.len() == BLOCK_SZ,
                forall|p: int, j: int|
                    0 <= p < i && 0 <= j < BLOCK_SZ ==> #[trigger] blocks@[p]@[j] == 0u8,
            decreases num_blocks - i,
        {
            let block: Vec<u8> = vec![0u8; BLOCK_SZ];
            blocks.push(block);
            i += 1;
        }
        Disk { blocks }
    }

    /// Number of blocks in the store.
    pub fn num_blocks(&self) -> (n: usize)
        ensures
            n == self@.len(),
    {
        self.blocks.len()
    }

    /// The byte at offset `off` of block `b`.
    pub fn read_byte(&self, b: usize, off: usize) -> (r: u8)
        requires
            self.wf(),
            b < self@.len(),
            off < BLOCK_SZ,
        ensures
            r == self@[b as int][off as int],
    {
        proof {
            self.lemma_view_index(b as int);
        }
        self.blocks[b][off]
    }

    /// Store `v` at offset `off` of block `b`; no other byte changes.
    pub fn write_byte(&mut self, b: usize, off: usize, v: u8)
        requires
            old(self).wf(),
            b < old(self)@.len(),
            off < BLOCK_SZ,
        ensures
            final(self).wf(),
            final(self)@ == old(self)@.update(
                b as int,
                old(self)@[b as int].update(off as int, v),
            ),
    {
        proof {
            self.lemma_view_index(b as int);
        }
        let block: &mut Vec<u8> = &mut self.blocks[b];
        block[off] = v;
        assert(self@ =~= old(self)@.update(b as int, old(self)@[b as int].update(off as int, v)));
    }

    /// The `u32` stored little-endian at word index `k` of block `b`.
    pub fn read_u32(&self, b: usize, k: usize) -> (r: u32)
        requires
            self.wf(),
            b < self@.len(),
            k < BLOCK_SZ / 4,
        ensures
            r == word_at(self@[b as int], k as int),
    {
        proof {
            self.lemma_view_index(b as int);
        }
        let b0 = self.blocks[b][4 * k];
        let b1 = self.blocks[b][4 * k + 1];
        let b2 = self.blocks[b][4 * k + 2];
        let b3 = self.blocks[b][4 * k + 3];
        b0 as u32 + b1 as u32 * 0x100 + b2 as u32 * 0x10000 + b3 as u32 * 0x1000000
    }

    /// Store `v` little-endian at word index `k` of block `b`.
    pub fn write_u32(&mut self, b: usize, k: usize, v: u32)
        requires
            old(self).wf(),
            b < old(self)@.len(),
            k < BLOCK_SZ / 4,
        ensures
            final(self).wf(),
            final(self)@ == old(self)@.update(
                b as int,
                put_word(old(self)@[b as int], k as int, v),
            ),
            word_at(final(self)@[b as int], k as int) == v,
    {
        proof {
            lemma_word_le_decompose(v);
        }
        proof {
            self.lemma_view_index(b as int);
        }
        let b0 = (v % 0x100) as u8;
        let b1 = (v / 0x100 % 0x100) as u8;
        let b2 = (v / 0x10000 % 0x100) as u8;
        let b3 = (v / 0x1000000) as u8;
        let block: &mut Vec<u8> = &mut self.blocks[b];
        block[4 * k] = b0;
        block[4 * k + 1] = b1;
        block[4 * k + 2] = b2;
        block[4 * k + 3] = b3;
        assert(self@ =~= old(self)@.update(
            b as int,
            put_word(old(self)@[b as int], k as int, v),
        ));
    }
}

/// Replacing one word of a block leaves every other word as it was.
pub proof fn lemma_put_word_other(block: Seq<u8>, k: int, v: u32, w: int)
    requires
        0 <= k,
        0 <= w,
        w != k,
        4 * k + 3 < block.len(),
        4 * w + 3 < block.len(),
    ensures
        word_at(put_word(block, k, v), w) == word_at(block, w),
{
}

/// A `u32` rebuilt from its four little-endian bytes is itself.
pub proof fn lemma_le_bytes_roundtrip(n: u32, b0: u8, b1: u8, b2: u8, b3: u8)
    requires
        b0 == (n % 0x100) as u8,
        b1 == (n / 0x100 % 0x100) as u8,
        b2 == (n / 0x10000 % 0x100) as u8,
        b3 == (n / 0x1000000) as u8,
    ensures
        b0 + b1 * 0x100 + b2 * 0x10000 + b3 * 0x1000000 == n,
{
    lemma_word_le_decompose(n);
}

/// A `u32` is the little-endian sum of its four bytes.
proof fn lemma_word_le_decompose(v: u32)
    ensures
        v % 0x100 + v / 0x100 % 0x100 * 0x100 + v / 0x10000 % 0x100 * 0x10000 + v / 0x1000000
            * 0x1000000 == v,
        v / 0x1000000 < 0x100,
{
    assert(v % 0x100 + v / 0x100 % 0x100 * 0x100 + v / 0x10000 % 0x100 * 0x10000 + v / 0x1000000
        * 0x1000000 == v) by (bit_vector);
    assert(v / 0x1000000 < 0x100) by (bit_vector);
}

} // verus!
