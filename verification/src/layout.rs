//! On-disk layout: super block, disk inode and directory entry.
//!
//! A disk inode addresses its data blocks through 28 direct slots, one
//! single-indirect block and one double-indirect block; an indirect block
//! stores 128 little-endian block ids. Indirect blocks are allocated lazily:
//! a zero id means "not allocated yet", and the id of an indirect block is
//! only read once the file is large enough to need it.

use vstd::prelude::*;
use crate::BLOCK_SZ;
use crate::disk::{Disk, word_at};

verus! {

/// Magic number marking a valid file-system image.
pub const EFS_MAGIC: u32 = 0x3b800001;

/// Number of direct block slots in a disk inode.
pub const INODE_DIRECT_COUNT: usize = 28;

/// Longest directory-entry name, in bytes.
pub const NAME_LENGTH_LIMIT: usize = 27;

/// Number of block ids held by one indirect block: `BLOCK_SZ / 4`.
pub const INODE_INDIRECT1_COUNT: usize = 128;

/// Number of data blocks reachable through the double-indirect block:
/// `INODE_INDIRECT1_COUNT` squared.
pub const INODE_INDIRECT2_COUNT: usize = 16384;

/// First file-block index served by the double-indirect block.
pub const INDIRECT1_BOUND: usize = INODE_DIRECT_COUNT + INODE_INDIRECT1_COUNT;

/// One past the largest addressable file-block index.
pub const INDIRECT2_BOUND: usize = INDIRECT1_BOUND + INODE_INDIRECT2_COUNT;

/// Largest file size the layout can address: `INDIRECT2_BOUND * BLOCK_SZ`.
pub const MAX_FILE_SIZE: u32 = 8468480;

/// Size in bytes of a serialized directory entry.
pub const DIRENT_SZ: usize = 32;

/// What a disk inode stores.
#[derive(Clone, Copy, PartialEq, Eq, Structural)]
pub enum DiskInodeType {
    File,
    Directory,
}

/// The fixed-size on-disk inode record.
pub struct DiskInode {
    /// Length of the file in bytes.
    pub size: u32,
    /// Direct data-block ids; exactly `INODE_DIRECT_COUNT` entries.
    pub direct: Vec<u32>,
    /// Block id of the single-indirect block, zero while unallocated.
    pub indirect1: u32,
    /// Block id of the double-indirect block, zero while unallocated.
    pub indirect2: u32,
    /// What the inode stores.
    pub type_: DiskInodeType,
}

/// Number of data blocks a file of `size` bytes occupies.
pub open spec fn data_blocks_of(size: u32) -> int {
    (size + BLOCK_SZ - 1) as int / BLOCK_SZ as int
}

/// Number of second-level indirect blocks a file of `db` data blocks needs.
pub open spec fn l2_count(db: int) -> int {
    if db > INDIRECT1_BOUND {
        (db - INDIRECT1_BOUND + INODE_INDIRECT1_COUNT - 1) / INODE_INDIRECT1_COUNT as int
    } else {
        0
    }
}

/// Number of blocks — data plus indirect — a wiring for `n` data blocks
/// occupies; also the length of the traversal `collect_upto` at `n`.
pub open spec fn blocks_through(n: int) -> int {
    n + (if n > INODE_DIRECT_COUNT {
        1int
    } else {
        0int
    }) + (if n > INDIRECT1_BOUND {
        1 + l2_count(n)
    } else {
        0int
    })
}

/// Data blocks plus every indirect block a file of `size` bytes needs.
pub open spec fn total_blocks_of(size: u32) -> int {
    blocks_through(data_blocks_of(size))
}

impl DiskInode {
    /// The record is well formed on its own: the direct table is full-width
    /// and the size stays within what the layout can address.
    pub open spec fn inode_wf(&self) -> bool {
        &&& self.direct@.len() == INODE_DIRECT_COUNT
        &&& data_blocks_of(self.size) <= INDIRECT2_BOUND
    }

    /// Id of the second-level indirect block serving group `a`.
    pub open spec fn l2_block(&self, disk: Seq<Seq<u8>>, a: int) -> u32 {
        word_at(disk[self.indirect2 as int], a)
    }

    /// Id of the `i`-th data block of the file, following the direct table,
    /// then the single-indirect block, then the double-indirect tree.
    pub open spec fn block_id_at(&self, disk: Seq<Seq<u8>>, i: int) -> u32 {
        if i < INODE_DIRECT_COUNT {
            self.direct@[i]
        } else if i < INDIRECT1_BOUND {
            word_at(disk[self.indirect1 as int], i - INODE_DIRECT_COUNT)
        } else {
            word_at(
                disk[self.l2_block(disk, (i - INDIRECT1_BOUND) / INODE_INDIRECT1_COUNT as int)
                    as int],
                (i - INDIRECT1_BOUND) % INODE_INDIRECT1_COUNT as int,
            )
        }
    }

    /// Every block id the wiring reaches while serving the first `n` data
    /// blocks lies inside the store.
    pub open spec fn blocks_wf_upto(&self, disk: Seq<Seq<u8>>, n: int) -> bool {
        &&& self.inode_wf()
        &&& (n > INODE_DIRECT_COUNT ==> (self.indirect1 as int) < disk.len())
        &&& (n > INDIRECT1_BOUND ==> {
            &&& (self.indirect2 as int) < disk.len()
            &&& forall|a: int|
                0 <= a < l2_count(n) ==> (#[trigger] self.l2_block(disk, a) as int) < disk.len()
        })
        &&& forall|i: int| 0 <= i < n ==> (#[trigger] self.block_id_at(disk, i) as int) < disk.len()
    }

    /// The whole wiring of the file stays inside the store.
    pub open spec fn blocks_wf(&self, disk: Seq<Seq<u8>>) -> bool {
        self.blocks_wf_upto(disk, data_blocks_of(self.size))
    }

    /// The indirect blocks that are wired in just before data block `i`,
    /// in allocation order.
    pub open spec fn meta_before(&self, disk: Seq<Seq<u8>>, i: int) -> Seq<u32> {
        if i == INODE_DIRECT_COUNT {
            seq![self.indirect1]
        } else if i == INDIRECT1_BOUND {
            seq![self.indirect2, self.l2_block(disk, 0)]
        } else if i > INDIRECT1_BOUND && (i - INDIRECT1_BOUND) % INODE_INDIRECT1_COUNT as int
            == 0 {
            seq![self.l2_block(disk, (i - INDIRECT1_BOUND) / INODE_INDIRECT1_COUNT as int)]
        } else {
            Seq::empty()
        }
    }

    /// Every block serving the first `n` data blocks — data and indirect
    /// alike — in the order the file system allocates and frees them.
    pub open spec fn collect_upto(&self, disk: Seq<Seq<u8>>, n: int) -> Seq<u32>
        decreases n,
    {
        if n <= 0 {
            Seq::empty()
        } else {
            self.collect_upto(disk, n - 1) + self.meta_before(disk, n - 1) + seq![
                self.block_id_at(disk, n - 1),
            ]
        }
    }

    /// Every block the file owns, in traversal order.
    pub open spec fn owned_blocks(&self, disk: Seq<Seq<u8>>) -> Seq<u32> {
        self.collect_upto(disk, data_blocks_of(self.size))
    }

    /// The bytes of the file, gathered from its data blocks in order.
    pub open spec fn file_bytes(&self, disk: Seq<Seq<u8>>) -> Seq<u8> {
        Seq::new(
            self.size as nat,
            |p: int| disk[self.block_id_at(disk, p / BLOCK_SZ as int) as int][p % BLOCK_SZ as int],
        )
    }

    /// What the inode stores.
    pub open spec fn spec_type(&self) -> DiskInodeType {
        self.type_
    }

    /// A fresh inode of the given type: empty, with nothing wired.
    pub fn new(type_: DiskInodeType) -> (r: DiskInode)
        ensures
            r.inode_wf(),
            r.size == 0,
            r.indirect1 == 0,
            r.indirect2 == 0,
            forall|i: int| 0 <= i < INODE_DIRECT_COUNT ==> #[trigger] r.direct@[i] == 0,
            r.spec_type() == type_,
    {
        let mut inode = DiskInode {
            size: 0,
            direct: Vec::new(),
            indirect1: 0,
            indirect2: 0,
            type_,
        };
        inode.initialize(type_);
        inode
    }

    /// Reset to an empty inode of the given type.
    pub fn initialize(&mut self, type_: DiskInodeType)
        ensures
            final(self).inode_wf(),
            final(self).size == 0,
            final(self).indirect1 == 0,
            final(self).indirect2 == 0,
            forall|i: int|
                0 <= i < INODE_DIRECT_COUNT ==> #[trigger] final(self).direct@[i] == 0,
            final(self).spec_type() == type_,
    {
        self.size = 0;
        self.direct = Vec::new();
        let mut i: usize = 0;
        while i < INODE_DIRECT_COUNT
            invariant
                i <= INODE_DIRECT_COUNT,
                self.size == 0,
                self.direct@.len() == i,
                forall|p: int| 0 <= p < i ==> #[trigger] self.direct@[p] == 0,
            decreases INODE_DIRECT_COUNT - i,
        {
            self.direct.push(0);
            i += 1;
        }
        self.indirect1 = 0;
        self.indirect2 = 0;
        self.type_ = type_;
    }

    /// Whether this inode is a directory.
    pub fn is_dir(&self) -> (r: bool)
        ensures
            r == (self.spec_type() == DiskInodeType::Directory),
    {
        self.type_ == DiskInodeType::Directory
    }

    /// Whether this inode is a regular file.
    pub fn is_file(&self) -> (r: bool)
        ensures
            r == (self.spec_type() == DiskInodeType::File),
    {
        self.type_ == DiskInodeType::File
    }

    /// Number of data blocks the file occupies.
    pub fn data_blocks(&self) -> (r: u32)
        requires
            self.inode_wf(),
        ensures
            r == data_blocks_of(self.size),
    {
        Self::blocks_for_size(self.size)
    }

    /// Number of data blocks a file of `size` bytes occupies.
    pub fn blocks_for_size(size: u32) -> (r: u32)
        requires
            data_blocks_of(size) <= INDIRECT2_BOUND,
        ensures
            r == data_blocks_of(size),
    {
        proof {
            lemma_size_bound(size);
        }
        (size + BLOCK_SZ as u32 - 1) / BLOCK_SZ as u32
    }

    /// Data blocks plus every indirect block a file of `size` bytes needs.
    pub fn total_blocks(size: u32) -> (r: u32)
        requires
            data_blocks_of(size) <= INDIRECT2_BOUND,
        ensures
            r == total_blocks_of(size),
    {
        let data_blocks = Self::blocks_for_size(size);
        let mut total = data_blocks;
        if data_blocks > INODE_DIRECT_COUNT as u32 {
            total += 1;
        }
        if data_blocks > INDIRECT1_BOUND as u32 {
            total += 1;
            total += (data_blocks - INDIRECT1_BOUND as u32 + INODE_INDIRECT1_COUNT as u32 - 1)
                / INODE_INDIRECT1_COUNT as u32;
        }
        total
    }

    /// How many fresh blocks growing the file to `new_size` consumes.
    pub fn blocks_num_needed(&self, new_size: u32) -> (r: u32)
        requires
            self.inode_wf(),
            new_size >= self.size,
            data_blocks_of(new_size) <= INDIRECT2_BOUND,
        ensures
            r == total_blocks_of(new_size) - total_blocks_of(self.size),
    {
        proof {
            lemma_total_blocks_monotone(self.size, new_size);
        }
        Self::total_blocks(new_size) - Self::total_blocks(self.size)
    }

    /// Id of the `i`-th data block, read through the wired indirect blocks.
    pub fn get_block_id(&self, inner_id: u32, disk: &Disk) -> (r: u32)
        requires
            disk.wf(),
            self.blocks_wf_upto(disk@, inner_id as int + 1),
            inner_id < INDIRECT2_BOUND,
        ensures
            r == self.block_id_at(disk@, inner_id as int),
    {
        let inner = inner_id as usize;
        if inner < INODE_DIRECT_COUNT {
            self.direct[inner]
        } else if inner < INDIRECT1_BOUND {
            disk.read_u32(self.indirect1 as usize, inner - INODE_DIRECT_COUNT)
        } else {
            let last = inner - INDIRECT1_BOUND;
            proof {
                lemma_l2_group_in_range(last as int, inner as int + 1);
            }
            assert(last / INODE_INDIRECT1_COUNT < INODE_INDIRECT1_COUNT);
            let l2 = disk.read_u32(self.indirect2 as usize, last / INODE_INDIRECT1_COUNT);
            assert(l2 == self.l2_block(disk@, last as int / (INODE_INDIRECT1_COUNT as int)));
            disk.read_u32(l2 as usize, last % INODE_INDIRECT1_COUNT)
        }
    }

    /// Bring into service whatever indirect block must stand just before
    /// data block `i` of the growth plan `s_all`: the single-indirect block
    /// at the first indirect index, the double-indirect block and then one
    /// second-level block at each group boundary. Returns the new read
    /// position in `new_blocks`.
    #[verifier::rlimit(100)]
    fn wire_meta(
        &mut self,
        disk: &mut Disk,
        i: u32,
        new_blocks: &Vec<u32>,
        cursor: usize,
        Ghost(s0): Ghost<DiskInode>,
        Ghost(d0): Ghost<Seq<Seq<u8>>>,
        Ghost(s_all): Ghost<Seq<u32>>,
        Ghost(old_db): Ghost<u32>,
    ) -> (nc: usize)
        requires
            old(self).inode_wf(),
            old(disk).wf(),
            old(disk)@.len() == d0.len(),
            old_db <= i < data_blocks_of(old(self).size),
            data_blocks_of(old(self).size) <= INDIRECT2_BOUND,
            s_all.len() == blocks_through(data_blocks_of(old(self).size)),
            s_all.no_duplicates(),
            forall|p: int| 0 <= p < s_all.len() ==> (#[trigger] s_all[p] as int) < d0.len(),
            forall|j: int|
                0 <= j < old_db ==> #[trigger] s0.block_id_at(d0, j) == s_all[blocks_through(
                    j + 1,
                ) - 1],
            new_blocks@ == s_all.skip(blocks_through(old_db as int)),
            cursor as int == blocks_through(i as int) - blocks_through(old_db as int),
            old(self).collect_upto(old(disk)@, i as int) == s_all.take(blocks_through(i as int)),
            i > INODE_DIRECT_COUNT ==> old(self).indirect1 == s_all[INODE_DIRECT_COUNT as int],
            i > INDIRECT1_BOUND ==> old(self).indirect2 == s_all[INDIRECT1_BOUND + 1],
            forall|aa: int|
                0 <= aa < l2_count(i as int) ==> #[trigger] old(self).l2_block(old(disk)@, aa)
                    == s_all[l2_pos(aa)],
            forall|bk: int|
                0 <= bk < d0.len() && !s_all.take(blocks_through(i as int)).contains(bk as u32)
                    ==> #[trigger] old(disk)@[bk] == d0[bk],
            forall|j: int|
                0 <= j < old_db ==> #[trigger] old(disk)@[s0.block_id_at(d0, j) as int] == d0[
                    s0.block_id_at(d0, j) as int],
        ensures
            nc as int == blocks_through(i as int + 1) - 1 - blocks_through(old_db as int),
            final(self).size == old(self).size,
            final(self).spec_type() == old(self).spec_type(),
            final(self).direct@ == old(self).direct@,
            final(self).inode_wf(),
            final(disk).wf(),
            final(disk)@.len() == d0.len(),
            final(self).collect_upto(final(disk)@, i as int) == s_all.take(
                blocks_through(i as int),
            ),
            i as int + 1 > INODE_DIRECT_COUNT ==> final(self).indirect1 == s_all[
                INODE_DIRECT_COUNT as int],
            i as int + 1 > INDIRECT1_BOUND ==> final(self).indirect2 == s_all[INDIRECT1_BOUND
                + 1],
            i != INODE_DIRECT_COUNT ==> final(self).indirect1 == old(self).indirect1,
            i != INDIRECT1_BOUND ==> final(self).indirect2 == old(self).indirect2,
            forall|aa: int|
                0 <= aa < l2_count(i as int + 1) ==> #[trigger] final(self).l2_block(
                    final(disk)@,
                    aa,
                ) == s_all[l2_pos(aa)],
            forall|bk: int|
                0 <= bk < d0.len() && !s_all.take(blocks_through(i as int + 1)).contains(
                    bk as u32,
                ) ==> #[trigger] final(disk)@[bk] == d0[bk],
            forall|j: int|
                0 <= j < old_db ==> #[trigger] final(disk)@[s0.block_id_at(d0, j) as int] == d0[
                    s0.block_id_at(d0, j) as int],
    {
        let ghost db = data_blocks_of(old(self).size);
        let ghost l0 = blocks_through(old_db as int);
        let mut cur = cursor;
        let ghost sh = *self;
        let ghost dh = disk@;
        let ghost mut pt1: int = blocks_through(i as int);
        proof {
            lemma_bt_step(i as int);
            lemma_bt_mono(old_db as int, i as int);
            lemma_bt_mono(i as int + 1, db);
            lemma_take_no_dup(s_all, blocks_through(i as int));
            lemma_collect_access(*self, disk@, i as int);
        }
        if i == INODE_DIRECT_COUNT as u32 {
            let id1 = new_blocks[cur];
            cur += 1;
            self.indirect1 = id1;
            proof {
                assert(self.indirect1 == s_all[l0 + cur - 1]);
                assert(l0 + cur - 1 == INODE_DIRECT_COUNT as int);
                lemma_collect_stable(sh, dh, *self, disk@, i as int);
            }
        }
        if i == INDIRECT1_BOUND as u32 {
            let id2 = new_blocks[cur];
            cur += 1;
            self.indirect2 = id2;
            proof {
                assert(self.indirect2 == s_all[l0 + cur - 1]);
                assert(l0 + cur - 1 == INDIRECT1_BOUND + 1);
                lemma_collect_stable(sh, dh, *self, disk@, i as int);
            }
        }
        if i >= INDIRECT1_BOUND as u32 && (i as usize - INDIRECT1_BOUND) % INODE_INDIRECT1_COUNT
            == 0 {
            let ghost sm = *self;
            let a = (i as usize - INDIRECT1_BOUND) / INODE_INDIRECT1_COUNT;
            proof {
                lemma_l2_group_in_range(i as int - INDIRECT1_BOUND, i as int + 1);
                if i > INDIRECT1_BOUND as u32 {
                    assert(l2_count(i as int) == a as int && l2_count(i as int + 1) == a as int
                        + 1 && l2_pos(a as int) == blocks_through(i as int)) by {
                        lemma_l2_count_step(i as int);
                        assert(128 * (a as int) == i as int - INDIRECT1_BOUND) by (
                        nonlinear_arith)
                            requires
                                (i as int - INDIRECT1_BOUND) % 128 == 0,
                                a as int == (i as int - INDIRECT1_BOUND) / 128,
                                i >= INDIRECT1_BOUND,
                        ;
                    }
                } else {
                    assert(a == 0 && l2_count(i as int) == 0 && l2_count(i as int + 1) == 1);
                }
            }
            let l2id = new_blocks[cur];
            cur += 1;
            proof {
                assert(l2id == s_all[l0 + cur - 1]);
                assert(l0 + cur - 1 == l2_pos(a as int));
                pt1 = INDIRECT1_BOUND + 1;
                assert(self.indirect2 == s_all[INDIRECT1_BOUND + 1]);
                assert(l2id != self.indirect2);
                if i as int + 1 > INODE_DIRECT_COUNT {
                    assert(self.indirect1 == s_all[INODE_DIRECT_COUNT as int]);
                    assert(self.indirect2 != self.indirect1);
                }
            }
            let ghost dm = disk@;
            disk.write_u32(self.indirect2 as usize, a, l2id);
            proof {
                assert forall|w: int| 0 <= w < INODE_INDIRECT1_COUNT && w != a implies
                    #[trigger] word_at(disk@[self.indirect2 as int], w) == word_at(
                    dm[self.indirect2 as int],
                    w,
                ) by {
                    crate::disk::lemma_put_word_other(
                        dm[self.indirect2 as int],
                        a as int,
                        l2id,
                        w,
                    );
                }
                assert forall|aa: int| 0 <= aa < l2_count(i as int) implies #[trigger] sm
                    .l2_block(dm, aa) != sm.indirect2 by {
                    lemma_l2_pos_distinct(aa, a as int);
                    assert(sm.l2_block(dm, aa) == s_all[l2_pos(aa)]);
                    lemma_l2_pos_bounds(aa, i as int);
                }
                lemma_collect_stable(sm, dm, *self, disk@, i as int);
                // the group table now lists every second-level block up to i + 1
                assert forall|aa: int| 0 <= aa < l2_count(i as int + 1) implies #[trigger] self
                    .l2_block(disk@, aa) == s_all[l2_pos(aa)] by {
                    if aa < l2_count(i as int) {
                        lemma_l2_pos_distinct(aa, a as int);
                        assert(word_at(disk@[self.indirect2 as int], aa) == word_at(
                            dm[self.indirect2 as int],
                            aa,
                        ));
                        assert(sm.l2_block(dm, aa) == s_all[l2_pos(aa)]);
                    } else {
                        assert(aa == a as int);
                        assert(word_at(disk@[self.indirect2 as int], a as int) == l2id);
                    }
                }
            }
        }
        proof {
            if !(i >= INDIRECT1_BOUND as u32 && (i as int - INDIRECT1_BOUND) % (
            INODE_INDIRECT1_COUNT as int) == 0) {
                assert forall|aa: int| 0 <= aa < l2_count(i as int + 1) implies #[trigger] self
                    .l2_block(disk@, aa) == s_all[l2_pos(aa)] by {
                    if i as int >= INDIRECT1_BOUND {
                        lemma_l2_count_step(i as int);
                    }
                }
            }
            assert forall|bk: int| 0 <= bk < d0.len() && dh[bk] != disk@[bk] implies bk
                == s_all[pt1] as int by {}
            lemma_frame_step(
                dh,
                disk@,
                d0,
                s0,
                s_all,
                i as int,
                old_db as int,
                db,
                blocks_through(i as int),
                pt1,
                pt1,
            );
        }
        cur
    }

    /// Wire the id of data block `i` itself: into a direct slot, the
    /// single-indirect block, or the second-level block of its group.
    #[verifier::rlimit(100)]
    fn wire_data(
        &mut self,
        disk: &mut Disk,
        i: u32,
        new_blocks: &Vec<u32>,
        cursor: usize,
        Ghost(s0): Ghost<DiskInode>,
        Ghost(d0): Ghost<Seq<Seq<u8>>>,
        Ghost(s_all): Ghost<Seq<u32>>,
        Ghost(old_db): Ghost<u32>,
    ) -> (nc: usize)
        requires
            old(self).inode_wf(),
            old(disk).wf(),
            old(disk)@.len() == d0.len(),
            old_db <= i < data_blocks_of(old(self).size),
            data_blocks_of(old(self).size) <= INDIRECT2_BOUND,
            s_all.len() == blocks_through(data_blocks_of(old(self).size)),
            s_all.no_duplicates(),
            forall|p: int| 0 <= p < s_all.len() ==> (#[trigger] s_all[p] as int) < d0.len(),
            forall|j: int|
                0 <= j < old_db ==> #[trigger] s0.block_id_at(d0, j) == s_all[blocks_through(
                    j + 1,
                ) - 1],
            new_blocks@ == s_all.skip(blocks_through(old_db as int)),
            cursor as int == blocks_through(i as int + 1) - 1 - blocks_through(old_db as int),
            old(self).collect_upto(old(disk)@, i as int) == s_all.take(blocks_through(i as int)),
            i as int + 1 > INODE_DIRECT_COUNT ==> old(self).indirect1 == s_all[
                INODE_DIRECT_COUNT as int],
            i as int + 1 > INDIRECT1_BOUND ==> old(self).indirect2 == s_all[INDIRECT1_BOUND + 1],
            forall|aa: int|
                0 <= aa < l2_count(i as int + 1) ==> #[trigger] old(self).l2_block(
                    old(disk)@,
                    aa,
                ) == s_all[l2_pos(aa)],
            forall|bk: int|
                0 <= bk < d0.len() && !s_all.take(blocks_through(i as int + 1)).contains(
                    bk as u32,
                ) ==> #[trigger] old(disk)@[bk] == d0[bk],
            forall|j: int|
                0 <= j < old_db ==> #[trigger] old(disk)@[s0.block_id_at(d0, j) as int] == d0[
                    s0.block_id_at(d0, j) as int],
        ensures
            nc as int == blocks_through(i as int + 1) - blocks_through(old_db as int),
            final(self).size == old(self).size,
            final(self).spec_type() == old(self).spec_type(),
            final(self).inode_wf(),
            final(disk).wf(),
            final(disk)@.len() == d0.len(),
            final(self).collect_upto(final(disk)@, i as int + 1) == s_all.take(
                blocks_through(i as int + 1),
            ),
            final(self).blocks_wf_upto(final(disk)@, i as int + 1),
            final(self).indirect1 == old(self).indirect1,
            final(self).indirect2 == old(self).indirect2,
            i as int + 1 > INODE_DIRECT_COUNT ==> final(self).indirect1 == s_all[
                INODE_DIRECT_COUNT as int],
            i as int + 1 > INDIRECT1_BOUND ==> final(self).indirect2 == s_all[INDIRECT1_BOUND
                + 1],
            forall|aa: int|
                0 <= aa < l2_count(i as int + 1) ==> #[trigger] final(self).l2_block(
                    final(disk)@,
                    aa,
                ) == s_all[l2_pos(aa)],
            forall|bk: int|
                0 <= bk < d0.len() && !s_all.take(blocks_through(i as int + 1)).contains(
                    bk as u32,
                ) ==> #[trigger] final(disk)@[bk] == d0[bk],
            forall|j: int|
                0 <= j < old_db ==> #[trigger] final(disk)@[s0.block_id_at(d0, j) as int] == d0[
                    s0.block_id_at(d0, j) as int],
    {
        let ghost db = data_blocks_of(old(self).size);
        let ghost l0 = blocks_through(old_db as int);
        let mut cur = cursor;
        let ghost sh = *self;
        let ghost dh = disk@;
        let ghost mut pt2: int = blocks_through(i as int + 1) - 1;
        proof {
            lemma_bt_step(i as int);
            lemma_bt_mono(old_db as int, i as int);
            lemma_bt_mono(i as int + 1, db);
            lemma_take_no_dup(s_all, blocks_through(i as int));
        }
        let id = new_blocks[cur];
        cur += 1;
        proof {
            assert(id == s_all[l0 + cur - 1]);
            assert(l0 + cur - 1 == blocks_through(i as int + 1) - 1);
        }
        if i < INODE_DIRECT_COUNT as u32 {
            let iu = i as usize;
            self.direct[iu] = id;
            proof {
                lemma_collect_stable(sh, dh, *self, disk@, i as int);
                assert(self.block_id_at(disk@, i as int) == id);
            }
        } else if i < INDIRECT1_BOUND as u32 {
            let w = i as usize - INODE_DIRECT_COUNT;
            proof {
                pt2 = INODE_DIRECT_COUNT as int;
            }
            disk.write_u32(self.indirect1 as usize, w, id);
            proof {
                assert forall|ww: int| 0 <= ww < INODE_INDIRECT1_COUNT && ww != w implies
                    #[trigger] word_at(disk@[self.indirect1 as int], ww) == word_at(
                    dh[self.indirect1 as int],
                    ww,
                ) by {
                    crate::disk::lemma_put_word_other(dh[self.indirect1 as int], w as int, id, ww);
                }
                lemma_collect_stable(sh, dh, *self, disk@, i as int);
                assert(self.block_id_at(disk@, i as int) == id);
            }
        } else {
            let a = (i as usize - INDIRECT1_BOUND) / INODE_INDIRECT1_COUNT;
            let w = (i as usize - INDIRECT1_BOUND) % INODE_INDIRECT1_COUNT;
            proof {
                lemma_l2_group_in_range(i as int - INDIRECT1_BOUND, i as int + 1);
                assert(a < l2_count(i as int + 1) && INDIRECT1_BOUND + 128 * (a as int) + (
                w as int) == i) by (nonlinear_arith)
                    requires
                        a as int == (i as int - INDIRECT1_BOUND) / 128,
                        w as int == (i as int - INDIRECT1_BOUND) % 128,
                        i >= INDIRECT1_BOUND,
                        i < INDIRECT2_BOUND,
                        l2_count(i as int + 1) == (i as int + 1 - INDIRECT1_BOUND + 127) / 128,
                ;
                pt2 = l2_pos(a as int);
                lemma_l2_pos_bounds(a as int, i as int + 1);
            }
            let l2cur = disk.read_u32(self.indirect2 as usize, a);
            proof {
                assert(l2cur == self.l2_block(disk@, a as int));
                assert(l2cur == s_all[l2_pos(a as int)]);
                assert(l2cur != self.indirect2);
                assert(l2cur != self.indirect1);
            }
            disk.write_u32(l2cur as usize, w, id);
            proof {
                assert forall|ww: int| 0 <= ww < INODE_INDIRECT1_COUNT && ww != w implies
                    #[trigger] word_at(disk@[l2cur as int], ww) == word_at(
                    dh[l2cur as int],
                    ww,
                ) by {
                    crate::disk::lemma_put_word_other(dh[l2cur as int], w as int, id, ww);
                }
                assert(self.l2_block(disk@, a as int) == l2cur);
                assert forall|aa: int, ww: int|
                    0 <= aa && 0 <= ww < INODE_INDIRECT1_COUNT && INDIRECT1_BOUND + (
                    INODE_INDIRECT1_COUNT as int) * aa + ww < i as int implies #[trigger] word_at(
                    dh[sh.l2_block(dh, aa) as int],
                    ww,
                ) == word_at(disk@[self.l2_block(disk@, aa) as int], ww) by {
                    assert(aa < l2_count(i as int + 1)) by (nonlinear_arith)
                        requires
                            0 <= aa,
                            0 <= ww,
                            INDIRECT1_BOUND + 128 * aa + ww < i as int,
                            l2_count(i as int + 1) == (i as int + 1 - INDIRECT1_BOUND + 127)
                                / 128,
                    ;
                    assert(self.l2_block(disk@, aa) == sh.l2_block(dh, aa));
                    if aa == a as int {
                        assert(ww != w);
                    } else {
                        lemma_l2_pos_bounds(aa, i as int + 1);
                        if aa < a as int {
                            lemma_l2_pos_distinct(aa, a as int);
                        } else {
                            lemma_l2_pos_distinct(a as int, aa);
                        }
                        assert(sh.l2_block(dh, aa) != l2cur);
                    }
                }
                lemma_collect_stable(sh, dh, *self, disk@, i as int);
                assert(self.block_id_at(disk@, i as int) == id);
            }
        }
        proof {
            assert(self.collect_upto(disk@, i as int) == s_all.take(blocks_through(i as int)));
            assert(self.collect_upto(disk@, i as int + 1) == self.collect_upto(disk@, i as int)
                + self.meta_before(disk@, i as int) + seq![self.block_id_at(disk@, i as int)]);
            if i as int >= INDIRECT1_BOUND {
                lemma_l2_group_in_range(i as int - INDIRECT1_BOUND, i as int + 1);
            }
            assert(self.collect_upto(disk@, i as int + 1) =~= s_all.take(blocks_through(
                i as int + 1,
            )));
            lemma_wf_from_plan(*self, disk@, s_all, i as int + 1, db);
            assert forall|aa: int| 0 <= aa < l2_count(i as int + 1) implies #[trigger] self
                .l2_block(disk@, aa) == s_all[l2_pos(aa)] by {
                assert(self.l2_block(disk@, aa) == sh.l2_block(dh, aa));
            }
            assert forall|bk: int| 0 <= bk < d0.len() && dh[bk] != disk@[bk] implies bk
                == s_all[pt2] as int by {}
            lemma_frame_step(
                dh,
                disk@,
                d0,
                s0,
                s_all,
                i as int,
                old_db as int,
                db,
                blocks_through(i as int + 1),
                pt2,
                pt2,
            );
        }
        cur
    }

    /// Grow the file to `new_size`, wiring the freshly allocated block ids
    /// in traversal order: direct slots first, each indirect block itself
    /// just before the first data block it serves. Consumes exactly
    /// `blocks_num_needed(new_size)` ids and touches no other block.
    #[verifier::rlimit(50)]
    pub fn increase_size(&mut self, new_size: u32, new_blocks: Vec<u32>, disk: &mut Disk)
        requires
            old(disk).wf(),
            old(self).blocks_wf(old(disk)@),
            old(self).size <= new_size,
            data_blocks_of(new_size) <= INDIRECT2_BOUND,
            new_blocks@.len() == total_blocks_of(new_size) - total_blocks_of(old(self).size),
            forall|c: int|
                0 <= c < new_blocks@.len() ==> (#[trigger] new_blocks@[c] as int) < old(
                    disk,
                )@.len(),
            (old(self).owned_blocks(old(disk)@) + new_blocks@).no_duplicates(),
        ensures
            final(disk).wf(),
            final(disk)@.len() == old(disk)@.len(),
            final(self).size == new_size,
            final(self).spec_type() == old(self).spec_type(),
            final(self).blocks_wf(final(disk)@),
            final(self).owned_blocks(final(disk)@) == old(self).owned_blocks(old(disk)@)
                + new_blocks@,
            final(self).file_bytes(final(disk)@).take(old(self).size as int) == old(
                self,
            ).file_bytes(old(disk)@),
            // an indirect block the growth does not reach is left alone
            !(data_blocks_of(old(self).size) <= INODE_DIRECT_COUNT && (
            INODE_DIRECT_COUNT as int) < data_blocks_of(new_size)) ==> final(self).indirect1
                == old(self).indirect1,
            !(data_blocks_of(old(self).size) <= INDIRECT1_BOUND && (INDIRECT1_BOUND as int)
                < data_blocks_of(new_size)) ==> final(self).indirect2 == old(self).indirect2,
            forall|bk: int|
                0 <= bk < old(disk)@.len() && !old(self).owned_blocks(old(disk)@).contains(
                    bk as u32,
                ) && !new_blocks@.contains(bk as u32) ==> final(disk)@[bk] == old(disk)@[bk],
    {
        let ghost s0 = *old(self);
        let ghost d0 = old(disk)@;
        let ghost s_all = s0.owned_blocks(d0) + new_blocks@;
        let old_db = self.data_blocks();
        let ghost l0 = blocks_through(old_db as int);
        self.size = new_size;
        let new_db = self.data_blocks();
        proof {
            lemma_collect_len(s0, d0, old_db as int);
            lemma_collect_congruent(s0, *self, d0, old_db as int);
            lemma_collect_congruent(*self, s0, d0, old_db as int);
            assert(s_all.take(l0) =~= s0.owned_blocks(d0));
            assert(new_blocks@ =~= s_all.skip(l0));
            lemma_bt_mono(old_db as int, new_db as int);
            lemma_collect_bounded(s0, d0, old_db as int);
            assert forall|p: int| 0 <= p < s_all.len() implies (#[trigger] s_all[p] as int)
                < d0.len() by {
                if p < l0 {
                    assert(s_all[p] == s0.owned_blocks(d0)[p]);
                } else {
                    assert(s_all[p] == new_blocks@[p - l0]);
                }
            }
            lemma_collect_access(s0, d0, old_db as int);
            assert forall|j: int| 0 <= j < old_db implies #[trigger] s0.block_id_at(d0, j)
                == s_all[blocks_through(j + 1) - 1] by {
                lemma_bt_mono(j + 1, old_db as int);
                assert(s0.owned_blocks(d0)[blocks_through(j + 1) - 1] == s0.block_id_at(d0, j));
            }
            assert forall|a: int|
                0 <= a < l2_count(old_db as int) implies (#[trigger] self.l2_block(d0, a) as int)
                < d0.len() by {
                assert(self.l2_block(d0, a) == s0.l2_block(d0, a));
            }
            assert forall|ii: int| 0 <= ii < old_db implies (#[trigger] self.block_id_at(
                d0,
                ii,
            ) as int) < d0.len() by {
                assert(self.block_id_at(d0, ii) == s0.block_id_at(d0, ii));
            }
            assert(self.blocks_wf_upto(d0, old_db as int));
            if old_db > INODE_DIRECT_COUNT as u32 {
                lemma_bt_mono(INODE_DIRECT_COUNT + 1, old_db as int);
                assert(s0.owned_blocks(d0)[INODE_DIRECT_COUNT as int] == s0.indirect1);
            }
            if old_db > INDIRECT1_BOUND as u32 {
                lemma_bt_mono(INDIRECT1_BOUND + 1, old_db as int);
                assert(s0.owned_blocks(d0)[INDIRECT1_BOUND + 1] == s0.indirect2);
            }
            assert forall|aa: int| 0 <= aa < l2_count(old_db as int) implies #[trigger] self
                .l2_block(d0, aa) == s_all[l2_pos(aa)] by {
                lemma_l2_pos_bounds(aa, old_db as int);
                assert(s0.owned_blocks(d0)[l2_pos(aa)] == s0.l2_block(d0, aa));
                assert(self.l2_block(d0, aa) == s0.l2_block(d0, aa));
            }
        }
        let mut cursor: usize = 0;
        let mut i: u32 = old_db;
        while i < new_db
            invariant
                old_db <= i <= new_db,
                old_db == data_blocks_of(s0.size),
                new_db == data_blocks_of(new_size),
                new_db == data_blocks_of(self.size),
                new_db <= INDIRECT2_BOUND,
                self.size == new_size,
                self.spec_type() == s0.spec_type(),
                self.inode_wf(),
                disk.wf(),
                disk@.len() == d0.len(),
                s_all == s0.owned_blocks(d0) + new_blocks@,
                l0 == blocks_through(old_db as int),
                s_all.no_duplicates(),
                s_all.len() == blocks_through(new_db as int),
                forall|p: int| 0 <= p < s_all.len() ==> (#[trigger] s_all[p] as int) < d0.len(),
                forall|j: int|
                    0 <= j < old_db ==> #[trigger] s0.block_id_at(d0, j) == s_all[blocks_through(
                        j + 1,
                    ) - 1],
                new_blocks@ == s_all.skip(l0),
                cursor as int == blocks_through(i as int) - l0,
                (old_db > INODE_DIRECT_COUNT || i <= INODE_DIRECT_COUNT) ==> self.indirect1
                    == s0.indirect1,
                (old_db > INDIRECT1_BOUND || i <= INDIRECT1_BOUND) ==> self.indirect2
                    == s0.indirect2,
                self.collect_upto(disk@, i as int) == s_all.take(blocks_through(i as int)),
                self.blocks_wf_upto(disk@, i as int),
                i > INODE_DIRECT_COUNT ==> self.indirect1 == s_all[INODE_DIRECT_COUNT as int],
                i > INDIRECT1_BOUND ==> self.indirect2 == s_all[INDIRECT1_BOUND + 1],
                forall|aa: int|
                    0 <= aa < l2_count(i as int) ==> #[trigger] self.l2_block(disk@, aa)
                        == s_all[l2_pos(aa)],
                forall|bk: int|
                    0 <= bk < d0.len() && !s_all.take(blocks_through(i as int)).contains(
                        bk as u32,
                    ) ==> #[trigger] disk@[bk] == d0[bk],
                forall|j: int|
                    0 <= j < old_db ==> #[trigger] disk@[s0.block_id_at(d0, j) as int] == d0[
                        s0.block_id_at(d0, j) as int],
            decreases new_db - i,
        {
            let mid = self.wire_meta(
                disk,
                i,
                &new_blocks,
                cursor,
                Ghost(s0),
                Ghost(d0),
                Ghost(s_all),
                Ghost(old_db),
            );
            cursor = self.wire_data(
                disk,
                i,
                &new_blocks,
                mid,
                Ghost(s0),
                Ghost(d0),
                Ghost(s_all),
                Ghost(old_db),
            );
            i += 1;
        }
        proof {
            assert(s_all.take(blocks_through(new_db as int)) =~= s_all);
            lemma_collect_access(*self, disk@, new_db as int);
            assert forall|p: int| 0 <= p < s0.size implies self.file_bytes(disk@)[p] == s0
                .file_bytes(d0)[p] by {
                let j = p / (BLOCK_SZ as int);
                assert(0 <= j < old_db) by (nonlinear_arith)
                    requires
                        j == p / 512,
                        0 <= p < s0.size,
                        old_db == (s0.size + 511) as int / 512,
                ;
                lemma_bt_mono(j + 1, old_db as int);
                lemma_bt_mono(old_db as int, new_db as int);
                assert(self.collect_upto(disk@, new_db as int)[blocks_through(j + 1) - 1]
                    == self.block_id_at(disk@, j));
                assert(self.block_id_at(disk@, j) == s0.block_id_at(d0, j));
            }
            assert(self.file_bytes(disk@).take(s0.size as int) =~= s0.file_bytes(d0));
            assert forall|bk: int|
                0 <= bk < d0.len() && !s0.owned_blocks(d0).contains(bk as u32)
                    && !new_blocks@.contains(bk as u32) implies #[trigger] disk@[bk]
                == d0[bk] by {
                if s_all.contains(bk as u32) {
                    let p = choose|p: int| 0 <= p < s_all.len() && s_all[p] == bk as u32;
                    if p < l0 {
                        assert(s0.owned_blocks(d0)[p] == bk as u32);
                    } else {
                        assert(new_blocks@[p - l0] == bk as u32);
                    }
                }
            }
        }
    }

    /// The byte at position `p` of the file lies in data block `p / 512`.
    /// Both the block index and the byte offset stay in range.
    proof fn lemma_byte_pos(&self, p: int)
        requires
            self.inode_wf(),
            0 <= p < self.size,
        ensures
            0 <= p / (BLOCK_SZ as int) < data_blocks_of(self.size),
            0 <= p % (BLOCK_SZ as int) < BLOCK_SZ,
            p / (BLOCK_SZ as int) < INDIRECT2_BOUND,
    {
        assert(0 <= p / 512 && p / 512 * 512 <= p < (p / 512 + 1) * 512) by (nonlinear_arith)
            requires 0 <= p,
        ;
        assert(p / 512 < (self.size + 511) as int / 512) by (nonlinear_arith)
            requires
                0 <= p < self.size,
                p / 512 * 512 <= p,
        ;
    }

    /// Read into the front of `buf`, starting at byte `offset` of the file
    /// and clamped at the file size. Returns how many bytes were read; the
    /// rest of `buf` keeps its old contents.
    pub fn read_at(&self, offset: usize, buf: &mut Vec<u8>, disk: &Disk) -> (r: usize)
        requires
            disk.wf(),
            self.blocks_wf(disk@),
            offset + old(buf)@.len() <= usize::MAX,
        ensures
            r == if (offset as int) < self.size as int {
                vstd::math::min(old(buf)@.len() as int, self.size - offset)
            } else {
                0int
            },
            final(buf)@.len() == old(buf)@.len(),
            forall|k: int|
                0 <= k < r ==> #[trigger] final(buf)@[k] == self.file_bytes(disk@)[offset + k],
            forall|k: int|
                r <= k < old(buf)@.len() ==> #[trigger] final(buf)@[k] == old(buf)@[k],
    {
        let end = if offset + buf.len() < self.size as usize {
            offset + buf.len()
        } else {
            self.size as usize
        };
        if offset >= end {
            return 0;
        }
        let count = end - offset;
        let mut j: usize = 0;
        while j < count
            invariant
                j <= count,
                count == end - offset,
                offset < end <= self.size,
                end <= offset + old(buf)@.len(),
                count as int == vstd::math::min(old(buf)@.len() as int, self.size - offset),
                disk.wf(),
                self.blocks_wf(disk@),
                buf@.len() == old(buf)@.len(),
                forall|k: int|
                    0 <= k < j ==> #[trigger] buf@[k] == self.file_bytes(disk@)[offset + k],
                forall|k: int| j <= k < old(buf)@.len() ==> #[trigger] buf@[k] == old(buf)@[k],
            decreases count - j,
        {
            let p = offset + j;
            proof {
                self.lemma_byte_pos(p as int);
                lemma_blocks_wf_upto_mono(
                    *self,
                    disk@,
                    p as int / (BLOCK_SZ as int) + 1,
                    data_blocks_of(self.size),
                );
            }
            let bid = self.get_block_id((p / BLOCK_SZ) as u32, disk);
            let byte = disk.read_byte(bid as usize, p % BLOCK_SZ);
            buf[j] = byte;
            proof {
                assert(buf@[j as int] == self.file_bytes(disk@)[p as int]);
            }
            j += 1;
        }
        count
    }

    /// Write `buf` at byte `offset` of the file, clamped at the file size:
    /// a write never grows the file — the caller grows it first. Returns
    /// how many bytes were written; only data blocks the file owns change.
    #[verifier::rlimit(50)]
    pub fn write_at(&mut self, offset: usize, buf: &Vec<u8>, disk: &mut Disk) -> (r: usize)
        requires
            old(disk).wf(),
            old(self).blocks_wf(old(disk)@),
            old(self).owned_blocks(old(disk)@).no_duplicates(),
            offset + buf@.len() <= usize::MAX,
        ensures
            *final(self) == *old(self),
            final(disk).wf(),
            final(disk)@.len() == old(disk)@.len(),
            final(self).blocks_wf(final(disk)@),
            r == if (offset as int) < old(self).size as int {
                vstd::math::min(buf@.len() as int, old(self).size - offset)
            } else {
                0int
            },
            final(self).file_bytes(final(disk)@).len() == old(self).file_bytes(old(disk)@).len(),
            forall|p: int|
                0 <= p < old(self).size ==> #[trigger] final(self).file_bytes(final(disk)@)[p]
                    == if offset <= p < offset + r {
                    buf@[p - offset]
                } else {
                    old(self).file_bytes(old(disk)@)[p]
                },
            forall|bk: int|
                0 <= bk < old(disk)@.len() && !old(self).owned_blocks(old(disk)@).contains(
                    bk as u32,
                ) ==> #[trigger] final(disk)@[bk] == old(disk)@[bk],
    {
        let ghost s = *old(self);
        let ghost d0 = old(disk)@;
        let ghost db = data_blocks_of(s.size);
        proof {
            lemma_collect_access(s, d0, db);
        }
        let end = if offset + buf.len() < self.size as usize {
            offset + buf.len()
        } else {
            self.size as usize
        };
        if offset >= end {
            return 0;
        }
        let count = end - offset;
        let mut j: usize = 0;
        while j < count
            invariant
                *self == s,
                j <= count,
                count == end - offset,
                offset < end <= s.size,
                count as int == vstd::math::min(buf@.len() as int, s.size - offset),
                db == data_blocks_of(s.size),
                disk.wf(),
                disk@.len() == d0.len(),
                s.blocks_wf(d0),
                s.owned_blocks(d0).no_duplicates(),
                s.collect_upto(disk@, db) == s.owned_blocks(d0),
                s.blocks_wf(disk@),
                forall|p: int|
                    0 <= p < s.size ==> #[trigger] s.file_bytes(disk@)[p] == if offset <= p
                        < offset + j {
                        buf@[p - offset]
                    } else {
                        s.file_bytes(d0)[p]
                    },
                forall|bk: int|
                    0 <= bk < d0.len() && !s.owned_blocks(d0).contains(bk as u32)
                        ==> #[trigger] disk@[bk] == d0[bk],
            decreases count - j,
        {
            let p = offset + j;
            proof {
                self.lemma_byte_pos(p as int);
                lemma_blocks_wf_upto_mono(*self, disk@, p as int / (BLOCK_SZ as int) + 1, db);
                lemma_wiring_distinct(*self, disk@, db);
            }
            let ghost dpre = disk@;
            let jb = p / BLOCK_SZ;
            let bid = self.get_block_id(jb as u32, disk);
            disk.write_byte(bid as usize, p % BLOCK_SZ, buf[j]);
            proof {
                // the write lands in a data block, so no wiring word moves
                lemma_collect_stable(s, dpre, s, disk@, db);
                assert(s.collect_upto(disk@, db) == s.owned_blocks(d0));
                lemma_wf_preserved_same_collect(s, dpre, disk@, db);
                // every byte position keeps or takes its intended value
                assert forall|q: int| 0 <= q < s.size implies #[trigger] s.file_bytes(disk@)[q]
                    == if offset <= q < offset + j + 1 {
                    buf@[q - offset]
                } else {
                    s.file_bytes(d0)[q]
                } by {
                    s.lemma_byte_pos(q);
                    let qb = q / (BLOCK_SZ as int);
                    let qo = q % (BLOCK_SZ as int);
                    assert(s.block_id_at(disk@, qb) == s.block_id_at(dpre, qb));
                    let bq = s.block_id_at(dpre, qb);
                    assert(s.file_bytes(disk@)[q] == disk@[bq as int][qo]);
                    assert(s.file_bytes(dpre)[q] == dpre[bq as int][qo]);
                    if qb != jb as int {
                        assert(bq != bid);
                        assert(disk@[bq as int] == dpre[bq as int]);
                    } else if q != p {
                        assert(qo != p as int % (BLOCK_SZ as int)) by (nonlinear_arith)
                            requires
                                q != p,
                                qo == q % 512,
                                q / 512 == p as int / 512,
                                0 <= q,
                                0 <= p,
                        ;
                        assert(disk@[bq as int][qo] == dpre[bq as int][qo]);
                    } else {
                        assert(disk@[bq as int][qo] == buf@[j as int]);
                    }
                }
                // the touched block is one the file owns
                assert(s.owned_blocks(d0).contains(bid)) by {
                    lemma_collect_access(s, d0, db);
                    assert(s.owned_blocks(d0)[blocks_through(jb as int + 1) - 1] == s
                        .block_id_at(d0, jb as int));
                    lemma_collect_access(s, dpre, db);
                    assert(s.collect_upto(dpre, db)[blocks_through(jb as int + 1) - 1] == bid);
                }
            }
            j += 1;
        }
        count
    }

    /// Walk every owned block — data and indirect — in traversal order,
    /// hand the ids back for deallocation, and reset the inode to an empty
    /// file of the same type.
    pub fn clear_size(&mut self, disk: &Disk) -> (v: Vec<u32>)
        requires
            disk.wf(),
            old(self).blocks_wf(disk@),
        ensures
            v@ == old(self).owned_blocks(disk@),
            v@.len() == total_blocks_of(old(self).size),
            final(self).inode_wf(),
            final(self).size == 0,
            final(self).indirect1 == 0,
            final(self).indirect2 == 0,
            forall|i: int|
                0 <= i < INODE_DIRECT_COUNT ==> #[trigger] final(self).direct@[i] == 0,
            final(self).spec_type() == old(self).spec_type(),
    {
        let db = self.data_blocks();
        let ghost d = disk@;
        let mut v: Vec<u32> = Vec::new();
        let mut i: u32 = 0;
        while i < db
            invariant
                *self == *old(self),
                i <= db,
                db == data_blocks_of(self.size),
                disk.wf(),
                d == disk@,
                self.blocks_wf(d),
                v@ == self.collect_upto(d, i as int),
            decreases db - i,
        {
            proof {
                lemma_blocks_wf_upto_mono(*self, d, i as int + 1, db as int);
            }
            if i == INODE_DIRECT_COUNT as u32 {
                v.push(self.indirect1);
            }
            if i == INDIRECT1_BOUND as u32 {
                v.push(self.indirect2);
            }
            if i >= INDIRECT1_BOUND as u32 && (i as usize - INDIRECT1_BOUND)
                % INODE_INDIRECT1_COUNT == 0 {
                let a = (i as usize - INDIRECT1_BOUND) / INODE_INDIRECT1_COUNT;
                proof {
                    lemma_l2_group_in_range(i as int - INDIRECT1_BOUND, i as int + 1);
                }
                let l2 = disk.read_u32(self.indirect2 as usize, a);
                v.push(l2);
            }
            let id = self.get_block_id(i, disk);
            v.push(id);
            proof {
                assert(v@ =~= self.collect_upto(d, i as int) + self.meta_before(d, i as int)
                    + seq![self.block_id_at(d, i as int)]);
            }
            i += 1;
        }
        proof {
            lemma_collect_len(*self, d, db as int);
        }
        let t = self.type_;
        self.initialize(t);
        v
    }
}

/// Data block `INDIRECT1_BOUND + last` lies in second-level group
/// `last / 128`, and that group index is within the groups a wiring for
/// `n` data blocks provides.
proof fn lemma_l2_group_in_range(last: int, n: int)
    requires
        0 <= last,
        last + INDIRECT1_BOUND < n,
        last < INODE_INDIRECT2_COUNT,
    ensures
        last / (INODE_INDIRECT1_COUNT as int) < l2_count(n),
        last / (INODE_INDIRECT1_COUNT as int) < INODE_INDIRECT1_COUNT,
        0 <= last % (INODE_INDIRECT1_COUNT as int) < INODE_INDIRECT1_COUNT,
{
    vstd::arithmetic::div_mod::lemma_div_is_ordered(last, 16383, 128);
    let c = INODE_INDIRECT1_COUNT as int;
    assert(last / c * c <= last < (last / c + 1) * c) by (nonlinear_arith)
        requires 0 <= last, c == 128,
    ;
    assert((n - INDIRECT1_BOUND + c - 1) / c >= last / c + 1) by (nonlinear_arith)
        requires 0 <= last, c == 128, last + INDIRECT1_BOUND < n, last / c * c <= last,
    ;
}

/// Only sizes up to `MAX_FILE_SIZE` keep their data blocks addressable.
pub proof fn lemma_size_bound(size: u32)
    requires
        data_blocks_of(size) <= INDIRECT2_BOUND,
    ensures
        size <= MAX_FILE_SIZE,
{
    if size > MAX_FILE_SIZE {
        vstd::arithmetic::div_mod::lemma_div_is_ordered(8468992, size as int + 511, 512);
        assert(8468992int / 512 == 16541);
    }
}

/// How `l2_count` moves when one more data block is wired.
proof fn lemma_l2_count_step(i: int)
    requires
        INDIRECT1_BOUND <= i < INDIRECT1_BOUND + INODE_INDIRECT2_COUNT,
    ensures
        (i - INDIRECT1_BOUND) % (INODE_INDIRECT1_COUNT as int) == 0 ==> l2_count(i + 1)
            == l2_count(i) + 1,
        (i - INDIRECT1_BOUND) % (INODE_INDIRECT1_COUNT as int) != 0 ==> l2_count(i + 1)
            == l2_count(i),
        i == INDIRECT1_BOUND ==> l2_count(i + 1) == 1,
{
    let m = i - INDIRECT1_BOUND;
    assert(m % 128 == 0 ==> (m + 128) / 128 == (m + 127) / 128 + 1) by (nonlinear_arith)
        requires 0 <= m,
    ;
    assert(m % 128 != 0 ==> (m + 128) / 128 == (m + 127) / 128) by (nonlinear_arith)
        requires 0 <= m,
    ;
    if i > INDIRECT1_BOUND {
        assert(l2_count(i) == (m + 127) / 128);
    } else {
        assert(m == 0);
        assert((0 + 127) / 128 == 0);
    }
}

/// `l2_count` never shrinks as the file grows.
proof fn lemma_l2_count_mono(n1: int, n2: int)
    requires
        0 <= n1 <= n2,
    ensures
        l2_count(n1) <= l2_count(n2),
{
    if n1 > INDIRECT1_BOUND {
        vstd::arithmetic::div_mod::lemma_div_is_ordered(
            n1 - INDIRECT1_BOUND + 127,
            n2 - INDIRECT1_BOUND + 127,
            128,
        );
    } else if n2 > INDIRECT1_BOUND {
        assert((n2 - INDIRECT1_BOUND + 127) / 128 >= 0) by (nonlinear_arith)
            requires n2 > INDIRECT1_BOUND,
        ;
    }
}

/// The traversal for `n` data blocks holds exactly those data blocks plus
/// every indirect block that serves them.
pub proof fn lemma_collect_len(inode: DiskInode, disk: Seq<Seq<u8>>, n: int)
    requires
        0 <= n <= INDIRECT2_BOUND,
    ensures
        inode.collect_upto(disk, n).len() == blocks_through(n),
    decreases n,
{
    if n > 0 {
        lemma_collect_len(inode, disk, n - 1);
        let i = n - 1;
        if i >= INDIRECT1_BOUND {
            lemma_l2_count_step(i);
        }
    }
}

/// How the traversal length moves when one more data block is wired.
pub proof fn lemma_bt_step(i: int)
    requires
        0 <= i < INDIRECT2_BOUND,
    ensures
        i < INODE_DIRECT_COUNT || (INODE_DIRECT_COUNT < i && i < INDIRECT1_BOUND)
            ==> blocks_through(i + 1) == blocks_through(i) + 1,
        i == INODE_DIRECT_COUNT ==> blocks_through(i + 1) == blocks_through(i) + 2,
        i == INDIRECT1_BOUND ==> blocks_through(i + 1) == blocks_through(i) + 3,
        i > INDIRECT1_BOUND && (i - INDIRECT1_BOUND) % (INODE_INDIRECT1_COUNT as int) == 0
            ==> blocks_through(i + 1) == blocks_through(i) + 2,
        i > INDIRECT1_BOUND && (i - INDIRECT1_BOUND) % (INODE_INDIRECT1_COUNT as int) != 0
            ==> blocks_through(i + 1) == blocks_through(i) + 1,
{
    if i >= INDIRECT1_BOUND {
        lemma_l2_count_step(i);
    }
}

/// The traversal is strictly longer for strictly more data blocks.
pub proof fn lemma_bt_mono(n1: int, n2: int)
    requires
        0 <= n1 <= n2,
    ensures
        blocks_through(n1) + (n2 - n1) <= blocks_through(n2),
{
    lemma_l2_count_mono(n1, n2);
}

/// Where each wired block stands in the traversal: data block `j` at
/// `blocks_through(j + 1) - 1`, each indirect block just before the first
/// data block it serves.
pub proof fn lemma_collect_access(inode: DiskInode, disk: Seq<Seq<u8>>, n: int)
    requires
        0 <= n <= INDIRECT2_BOUND,
    ensures
        inode.collect_upto(disk, n).len() == blocks_through(n),
        forall|j: int|
            0 <= j < n ==> inode.collect_upto(disk, n)[blocks_through(j + 1) - 1]
                == inode.block_id_at(disk, j),
        n > INODE_DIRECT_COUNT ==> inode.collect_upto(disk, n)[INODE_DIRECT_COUNT as int]
            == inode.indirect1,
        n > INDIRECT1_BOUND ==> inode.collect_upto(disk, n)[INDIRECT1_BOUND + 1]
            == inode.indirect2,
        n > INDIRECT1_BOUND ==> inode.collect_upto(disk, n)[INDIRECT1_BOUND + 2]
            == inode.l2_block(disk, 0),
        forall|a: int|
            1 <= a < l2_count(n) ==> inode.collect_upto(disk, n)[blocks_through(
                INDIRECT1_BOUND + (INODE_INDIRECT1_COUNT as int) * a,
            )] == inode.l2_block(disk, a),
    decreases n,
{
    lemma_collect_len(inode, disk, n);
    if n > 0 {
        let i = n - 1;
        lemma_collect_access(inode, disk, i);
        lemma_bt_step(i);
        let prev = inode.collect_upto(disk, i);
        let cur = inode.collect_upto(disk, n);
        assert(cur == prev + inode.meta_before(disk, i) + seq![inode.block_id_at(disk, i)]);
        assert forall|j: int| 0 <= j < n implies cur[blocks_through(j + 1) - 1]
            == inode.block_id_at(disk, j) by {
            if j < i {
                lemma_bt_mono(j + 1, i);
            }
        }
        if i == INDIRECT1_BOUND {
            assert(cur[INDIRECT1_BOUND + 1] == inode.indirect2);
            assert(cur[INDIRECT1_BOUND + 2] == inode.l2_block(disk, 0));
        }
        if i > INDIRECT1_BOUND && (i - INDIRECT1_BOUND) % (INODE_INDIRECT1_COUNT as int) == 0 {
            let a = (i - INDIRECT1_BOUND) / (INODE_INDIRECT1_COUNT as int);
            assert(a * (INODE_INDIRECT1_COUNT as int) == i - INDIRECT1_BOUND) by (nonlinear_arith)
                requires
                    (i - INDIRECT1_BOUND) % (INODE_INDIRECT1_COUNT as int) == 0,
                    a == (i - INDIRECT1_BOUND) / (INODE_INDIRECT1_COUNT as int),
                    i >= INDIRECT1_BOUND,
                    INODE_INDIRECT1_COUNT == 128,
            ;
            assert(a >= 1) by (nonlinear_arith)
                requires
                    a * 128 == i - INDIRECT1_BOUND,
                    i > INDIRECT1_BOUND,
            ;
            assert(cur[blocks_through(i)] == inode.l2_block(disk, a));
            assert forall|aa: int| 1 <= aa < l2_count(n) implies cur[blocks_through(
                INDIRECT1_BOUND + (INODE_INDIRECT1_COUNT as int) * aa,
            )] == inode.l2_block(disk, aa) by {
                lemma_l2_count_step(i);
                if aa < a {
                    lemma_bt_mono(INDIRECT1_BOUND + 128 * aa, i);
                } else if aa > a {
                    assert(false) by (nonlinear_arith)
                        requires
                            aa > a,
                            a * 128 == i - INDIRECT1_BOUND,
                            aa < l2_count(n),
                            n == i + 1,
                            l2_count(n) == (n - INDIRECT1_BOUND + 127) / 128,
                    ;
                }
            }
        } else {
            assert forall|aa: int| 1 <= aa < l2_count(n) implies cur[blocks_through(
                INDIRECT1_BOUND + (INODE_INDIRECT1_COUNT as int) * aa,
            )] == inode.l2_block(disk, aa) by {
                if i >= INDIRECT1_BOUND {
                    lemma_l2_count_step(i);
                }
                assert(aa < l2_count(i));
                lemma_bt_mono(INDIRECT1_BOUND + 128 * aa + 1, i);
                assert(blocks_through(INDIRECT1_BOUND + 128 * aa) < blocks_through(i));
            }
        }
    }
}

/// Traversal position of second-level indirect block `a`.
pub open spec fn l2_pos(a: int) -> int {
    if a == 0 {
        INDIRECT1_BOUND + 2
    } else {
        blocks_through(INDIRECT1_BOUND + (INODE_INDIRECT1_COUNT as int) * a)
    }
}

/// Bounds on the traversal positions of the indirect blocks.
proof fn lemma_l2_pos_bounds(a: int, n: int)
    requires
        0 <= a < l2_count(n),
        n <= INDIRECT2_BOUND,
    ensures
        INDIRECT1_BOUND + 1 < l2_pos(a) < blocks_through(n),
        forall|j: int|
            0 <= j < n ==> #[trigger] blocks_through(j + 1) - 1 != l2_pos(a),
        a >= 1 ==> INDIRECT1_BOUND + (INODE_INDIRECT1_COUNT as int) * a < n,
{
    let m = INDIRECT1_BOUND + 128 * a;
    assert(128 * a < n - INDIRECT1_BOUND) by (nonlinear_arith)
        requires
            0 <= a,
            a < (n - INDIRECT1_BOUND + 127) / 128,
            n > INDIRECT1_BOUND,
            l2_count(n) == (n - INDIRECT1_BOUND + 127) / 128,
            a < l2_count(n),
    ;
    assert(m < n);
    if a == 0 {
        lemma_bt_mono(INDIRECT1_BOUND + 1, n);
        assert(blocks_through(INDIRECT1_BOUND + 1) == INDIRECT1_BOUND + 1 + 1 + 2);
        assert forall|j: int| 0 <= j < n implies #[trigger] blocks_through(j + 1) - 1 != l2_pos(
            a,
        ) by {
            if j + 1 <= INDIRECT1_BOUND {
                lemma_bt_mono(j + 1, INDIRECT1_BOUND as int);
            } else {
                lemma_bt_mono(INDIRECT1_BOUND + 1, j + 1);
            }
        }
    } else {
        lemma_bt_step(m);
        assert((m - INDIRECT1_BOUND) % 128 == 0) by (nonlinear_arith)
            requires
                m - INDIRECT1_BOUND == 128 * a,
                a >= 0,
        ;
        lemma_bt_mono(INDIRECT1_BOUND + 1, m);
        lemma_bt_mono(m + 1, n);
        assert forall|j: int| 0 <= j < n implies #[trigger] blocks_through(j + 1) - 1 != l2_pos(
            a,
        ) by {
            if j + 1 <= m {
                lemma_bt_mono(j + 1, m);
            } else {
                lemma_bt_mono(m + 1, j + 1);
            }
        }
    }
}

/// When the traversal up to `n` is duplicate-free, every two distinct wired
/// blocks — data or indirect — carry distinct ids.
pub proof fn lemma_wiring_distinct(inode: DiskInode, disk: Seq<Seq<u8>>, n: int)
    requires
        0 <= n <= INDIRECT2_BOUND,
        inode.collect_upto(disk, n).no_duplicates(),
    ensures
        forall|j1: int, j2: int|
            0 <= j1 < n && 0 <= j2 < n && j1 != j2 ==> #[trigger] inode.block_id_at(disk, j1)
                != #[trigger] inode.block_id_at(disk, j2),
        n > INODE_DIRECT_COUNT ==> forall|j: int|
            0 <= j < n ==> inode.indirect1 != #[trigger] inode.block_id_at(disk, j),
        n > INDIRECT1_BOUND ==> forall|j: int|
            0 <= j < n ==> inode.indirect2 != #[trigger] inode.block_id_at(disk, j),
        n > INDIRECT1_BOUND && n > INODE_DIRECT_COUNT ==> inode.indirect1 != inode.indirect2,
        forall|a: int, j: int|
            0 <= a < l2_count(n) && 0 <= j < n ==> #[trigger] inode.l2_block(disk, a)
                != #[trigger] inode.block_id_at(disk, j),
        forall|a: int|
            0 <= a < l2_count(n) ==> inode.indirect1 != #[trigger] inode.l2_block(disk, a)
                && inode.indirect2 != inode.l2_block(disk, a),
        forall|a1: int, a2: int|
            0 <= a1 < l2_count(n) && 0 <= a2 < l2_count(n) && a1 != a2
                ==> #[trigger] inode.l2_block(disk, a1) != #[trigger] inode.l2_block(disk, a2),
{
    lemma_collect_access(inode, disk, n);
    let c = inode.collect_upto(disk, n);
    assert forall|j: int| 0 <= j < n implies INODE_DIRECT_COUNT < #[trigger] blocks_through(
        j + 1,
    ) - 1 < blocks_through(n) || blocks_through(j + 1) - 1 == j by {
        if j + 1 <= INODE_DIRECT_COUNT {
            lemma_bt_mono(j + 1, INODE_DIRECT_COUNT as int);
        } else {
            lemma_bt_mono(INODE_DIRECT_COUNT + 1, j + 1);
            assert(blocks_through(INODE_DIRECT_COUNT + 1) == INODE_DIRECT_COUNT + 2);
        }
        lemma_bt_mono(j + 1, n);
    }
    assert forall|j1: int, j2: int|
        0 <= j1 < n && 0 <= j2 < n && j1 != j2 implies #[trigger] inode.block_id_at(disk, j1)
        != #[trigger] inode.block_id_at(disk, j2) by {
        if j1 < j2 {
            lemma_bt_mono(j1 + 1, j2);
            lemma_bt_mono(j2, j2 + 1);
        } else {
            lemma_bt_mono(j2 + 1, j1);
            lemma_bt_mono(j1, j1 + 1);
        }
    }
    if n > INODE_DIRECT_COUNT {
        assert forall|j: int| 0 <= j < n implies inode.indirect1 != #[trigger] inode.block_id_at(
            disk,
            j,
        ) by {
            lemma_bt_mono(INODE_DIRECT_COUNT + 1, n);
        }
    }
    if n > INDIRECT1_BOUND {
        lemma_bt_mono(INDIRECT1_BOUND + 1, n);
        assert(blocks_through(INDIRECT1_BOUND + 1) == INDIRECT1_BOUND + 4);
        assert forall|j: int| 0 <= j < n implies inode.indirect2 != #[trigger] inode.block_id_at(
            disk,
            j,
        ) by {
            if j + 1 <= INDIRECT1_BOUND {
                lemma_bt_mono(j + 1, INDIRECT1_BOUND as int);
            } else {
                lemma_bt_mono(INDIRECT1_BOUND + 1, j + 1);
            }
        }
    }
    assert forall|a: int| 0 <= a < l2_count(n) implies c[l2_pos(a)] == inode.l2_block(disk, a)
        && INDIRECT1_BOUND + 1 < l2_pos(a) < blocks_through(n) by {
        lemma_l2_pos_bounds(a, n);
    }
    assert forall|a: int, j: int| 0 <= a < l2_count(n) && 0 <= j < n implies
        #[trigger] inode.l2_block(disk, a) != #[trigger] inode.block_id_at(disk, j) by {
        lemma_l2_pos_bounds(a, n);
        lemma_bt_mono(j + 1, n);
    }
    assert forall|a: int| 0 <= a < l2_count(n) implies inode.indirect1
        != #[trigger] inode.l2_block(disk, a) && inode.indirect2 != inode.l2_block(disk, a) by {
        lemma_l2_pos_bounds(a, n);
    }
    assert forall|a1: int, a2: int|
        0 <= a1 < l2_count(n) && 0 <= a2 < l2_count(n) && a1 != a2 implies
        #[trigger] inode.l2_block(disk, a1) != #[trigger] inode.l2_block(disk, a2) by {
        lemma_l2_pos_bounds(a1, n);
        lemma_l2_pos_bounds(a2, n);
        if a1 >= 1 && a2 >= 1 {
            if a1 < a2 {
                lemma_bt_mono(INDIRECT1_BOUND + 128 * a1, INDIRECT1_BOUND + 128 * a2);
                assert(128 * a1 < 128 * a2) by (nonlinear_arith)
                    requires a1 < a2,
                ;
            } else {
                lemma_bt_mono(INDIRECT1_BOUND + 128 * a2, INDIRECT1_BOUND + 128 * a1);
                assert(128 * a2 < 128 * a1) by (nonlinear_arith)
                    requires a2 < a1,
                ;
            }
        }
    }
}

/// A prefix of a duplicate-free sequence is duplicate-free.
pub proof fn lemma_take_no_dup(s: Seq<u32>, k: int)
    requires
        s.no_duplicates(),
        0 <= k <= s.len(),
    ensures
        s.take(k).no_duplicates(),
{
}

/// Two wirings that agree on everything the traversal reads produce the
/// same traversal, whatever else the inodes or stores hold.
pub proof fn lemma_collect_stable(
    a: DiskInode,
    d1: Seq<Seq<u8>>,
    b: DiskInode,
    d2: Seq<Seq<u8>>,
    n: int,
)
    requires
        0 <= n <= INDIRECT2_BOUND,
        forall|j: int|
            0 <= j < n && j < INODE_DIRECT_COUNT ==> #[trigger] a.direct@[j] == b.direct@[j],
        n > INODE_DIRECT_COUNT ==> a.indirect1 == b.indirect1,
        n > INODE_DIRECT_COUNT ==> forall|w: int|
            0 <= w < INODE_INDIRECT1_COUNT && w + INODE_DIRECT_COUNT < n ==> #[trigger] word_at(
                d1[a.indirect1 as int],
                w,
            ) == word_at(d2[b.indirect1 as int], w),
        n > INDIRECT1_BOUND ==> a.indirect2 == b.indirect2,
        n > INDIRECT1_BOUND ==> forall|aa: int|
            0 <= aa < l2_count(n) ==> #[trigger] word_at(d1[a.indirect2 as int], aa) == word_at(
                d2[b.indirect2 as int],
                aa,
            ),
        n > INDIRECT1_BOUND ==> forall|aa: int, w: int|
            0 <= aa && 0 <= w < INODE_INDIRECT1_COUNT && INDIRECT1_BOUND + (
            INODE_INDIRECT1_COUNT as int) * aa + w < n ==> #[trigger] word_at(
                d1[a.l2_block(d1, aa) as int],
                w,
            ) == word_at(d2[b.l2_block(d2, aa) as int], w),
    ensures
        forall|j: int| 0 <= j < n ==> #[trigger] a.block_id_at(d1, j) == b.block_id_at(d2, j),
        a.collect_upto(d1, n) == b.collect_upto(d2, n),
    decreases n,
{
    assert forall|j: int| 0 <= j < n implies #[trigger] a.block_id_at(d1, j) == b.block_id_at(
        d2,
        j,
    ) by {
        if j >= INDIRECT1_BOUND {
            let aa = (j - INDIRECT1_BOUND) / (INODE_INDIRECT1_COUNT as int);
            let w = (j - INDIRECT1_BOUND) % (INODE_INDIRECT1_COUNT as int);
            lemma_l2_group_in_range(j - INDIRECT1_BOUND, j + 1);
            assert(INDIRECT1_BOUND + 128 * aa + w == j) by (nonlinear_arith)
                requires
                    aa == (j - INDIRECT1_BOUND) / 128,
                    w == (j - INDIRECT1_BOUND) % 128,
                    j >= INDIRECT1_BOUND,
            ;
            assert(aa < l2_count(n)) by (nonlinear_arith)
                requires
                    128 * aa + w == n - INDIRECT1_BOUND - (n - j),
                    0 <= w < 128,
                    j < n,
                    n > INDIRECT1_BOUND,
                    0 <= aa,
                    l2_count(n) == (n - INDIRECT1_BOUND + 127) / 128,
            ;
            assert(a.l2_block(d1, aa) == b.l2_block(d2, aa));
            assert(word_at(d1[a.l2_block(d1, aa) as int], w) == word_at(
                d2[b.l2_block(d2, aa) as int],
                w,
            ));
        }
    }
    if n > 0 {
        let i = n - 1;
        lemma_l2_count_mono(i, n);
        lemma_collect_stable(a, d1, b, d2, i);
        if i == INDIRECT1_BOUND {
            assert(a.l2_block(d1, 0) == b.l2_block(d2, 0));
        }
        if i > INDIRECT1_BOUND && (i - INDIRECT1_BOUND) % (INODE_INDIRECT1_COUNT as int) == 0 {
            let aa = (i - INDIRECT1_BOUND) / (INODE_INDIRECT1_COUNT as int);
            assert(aa < l2_count(n)) by (nonlinear_arith)
                requires
                    aa == (i - INDIRECT1_BOUND) / 128,
                    (i - INDIRECT1_BOUND) % 128 == 0,
                    i > INDIRECT1_BOUND,
                    n == i + 1,
                    l2_count(n) == (n - INDIRECT1_BOUND + 127) / 128,
            ;
            assert(a.l2_block(d1, aa) == b.l2_block(d2, aa));
        }
        assert(a.meta_before(d1, i) == b.meta_before(d2, i));
        assert(a.collect_upto(d1, n) == b.collect_upto(d2, n));
    }
}

/// Every id the traversal collects points inside the store.
pub proof fn lemma_collect_bounded(inode: DiskInode, disk: Seq<Seq<u8>>, n: int)
    requires
        0 <= n <= INDIRECT2_BOUND,
        inode.blocks_wf_upto(disk, n),
    ensures
        forall|p: int|
            0 <= p < inode.collect_upto(disk, n).len() ==> (#[trigger] inode.collect_upto(
                disk,
                n,
            )[p] as int) < disk.len(),
    decreases n,
{
    if n > 0 {
        let i = n - 1;
        lemma_blocks_wf_upto_mono(inode, disk, i, n);
        lemma_collect_bounded(inode, disk, i);
        if i > INDIRECT1_BOUND && (i - INDIRECT1_BOUND) % (INODE_INDIRECT1_COUNT as int) == 0 {
            let a = (i - INDIRECT1_BOUND) / (INODE_INDIRECT1_COUNT as int);
            assert(0 <= a < l2_count(n)) by (nonlinear_arith)
                requires
                    a == (i - INDIRECT1_BOUND) / 128,
                    i > INDIRECT1_BOUND,
                    n == i + 1,
                    l2_count(n) == (n - INDIRECT1_BOUND + 127) / 128,
            ;
        }
        assert forall|p: int| 0 <= p < inode.collect_upto(disk, n).len() implies (
        #[trigger] inode.collect_upto(disk, n)[p] as int) < disk.len() by {
            let prev = inode.collect_upto(disk, i);
            if p < prev.len() {
                assert(inode.collect_upto(disk, n)[p] == prev[p]);
            }
        }
    }
}

/// No data block ever stands at the traversal positions the first- or
/// double-indirect block occupies.
proof fn lemma_not_bid_pos(j: int)
    requires
        0 <= j,
    ensures
        blocks_through(j + 1) - 1 != INODE_DIRECT_COUNT,
        blocks_through(j + 1) - 1 != INDIRECT1_BOUND + 1,
        blocks_through(j + 1) - 1 != INDIRECT1_BOUND + 2,
{
    if j + 1 <= INODE_DIRECT_COUNT {
    } else {
        lemma_bt_mono(INODE_DIRECT_COUNT + 1, j + 1);
    }
    if j + 1 <= INDIRECT1_BOUND {
        lemma_bt_mono(j + 1, INDIRECT1_BOUND as int);
    } else {
        lemma_bt_mono(INDIRECT1_BOUND + 1, j + 1);
    }
}

/// Positions of distinct second-level groups in the traversal differ.
proof fn lemma_l2_pos_distinct(a1: int, a2: int)
    requires
        0 <= a1 < a2,
    ensures
        l2_pos(a1) != l2_pos(a2),
        l2_pos(a1) < l2_pos(a2),
{
    if a1 == 0 {
        lemma_bt_mono(INDIRECT1_BOUND + 2, INDIRECT1_BOUND + 128 * a2);
        assert(blocks_through(INDIRECT1_BOUND + 2) == INDIRECT1_BOUND + 2 + 1 + 2);
        assert(128 * a2 >= 128) by (nonlinear_arith)
            requires a2 >= 1,
        ;
    } else {
        assert(128 * a1 < 128 * a2) by (nonlinear_arith)
            requires a1 < a2,
        ;
        lemma_bt_mono(INDIRECT1_BOUND + 128 * a1 + 1, INDIRECT1_BOUND + 128 * a2);
    }
}

/// A traversal position a growth step may write through: either freshly
/// consumed from the plan, or one of the already-standing indirect blocks.
pub open spec fn plan_meta_pos(pt: int, i: int, old_db: int) -> bool {
    ||| pt >= blocks_through(old_db)
    ||| pt == INODE_DIRECT_COUNT
    ||| pt == INDIRECT1_BOUND + 1
    ||| exists|aa: int| 0 <= aa < l2_count(i + 1) && pt == l2_pos(aa)
}

/// A wiring whose traversal matches a duplicate-free, in-range plan is
/// sound: every id it reaches lies inside the store.
proof fn lemma_wf_from_plan(
    s: DiskInode,
    d: Seq<Seq<u8>>,
    s_all: Seq<u32>,
    m: int,
    db: int,
)
    requires
        0 <= m <= db <= INDIRECT2_BOUND,
        s.inode_wf(),
        s_all.len() == blocks_through(db),
        forall|p: int| 0 <= p < s_all.len() ==> (#[trigger] s_all[p] as int) < d.len(),
        s.collect_upto(d, m) == s_all.take(blocks_through(m)),
    ensures
        s.blocks_wf_upto(d, m),
    decreases 0int,
{
    lemma_bt_mono(m, db);
    lemma_collect_access(s, d, m);
    let c = s.collect_upto(d, m);
    assert forall|aa: int| 0 <= aa < l2_count(m) implies (#[trigger] s.l2_block(d, aa) as int)
        < d.len() by {
        lemma_l2_pos_bounds(aa, m);
        assert(c[l2_pos(aa)] == s.l2_block(d, aa));
        assert(s_all[l2_pos(aa)] == s.l2_block(d, aa));
    }
    assert forall|j: int| 0 <= j < m implies (#[trigger] s.block_id_at(d, j) as int)
        < d.len() by {
        lemma_bt_mono(j + 1, m);
        assert(c[blocks_through(j + 1) - 1] == s.block_id_at(d, j));
        assert(s_all[blocks_through(j + 1) - 1] == s.block_id_at(d, j));
    }
    if m > INODE_DIRECT_COUNT {
        assert(c[INODE_DIRECT_COUNT as int] == s.indirect1);
        assert(s_all[INODE_DIRECT_COUNT as int] == s.indirect1);
    }
    if m > INDIRECT1_BOUND {
        assert(c[INDIRECT1_BOUND + 1] == s.indirect2);
        assert(s_all[INDIRECT1_BOUND + 1] == s.indirect2);
    }
}

/// A store write through plan positions `pt1` and `pt2` leaves every block
/// outside the consumed plan untouched, and never lands on a data block
/// that was wired before the growth began.
proof fn lemma_frame_step(
    dh: Seq<Seq<u8>>,
    d: Seq<Seq<u8>>,
    d0: Seq<Seq<u8>>,
    s0: DiskInode,
    s_all: Seq<u32>,
    i: int,
    old_db: int,
    db: int,
    prev: int,
    pt1: int,
    pt2: int,
)
    requires
        0 <= old_db <= i < db <= INDIRECT2_BOUND,
        d.len() == d0.len(),
        dh.len() == d0.len(),
        s_all.no_duplicates(),
        s_all.len() == blocks_through(db),
        forall|p: int| 0 <= p < s_all.len() ==> (#[trigger] s_all[p] as int) < d0.len(),
        0 <= prev <= blocks_through(i + 1),
        forall|j: int|
            0 <= j < old_db ==> #[trigger] s0.block_id_at(d0, j) == s_all[blocks_through(j + 1)
                - 1],
        forall|bk: int|
            0 <= bk < d0.len() && !s_all.take(prev).contains(bk as u32) ==> #[trigger] dh[bk]
                == d0[bk],
        forall|j: int|
            0 <= j < old_db ==> #[trigger] dh[s0.block_id_at(d0, j) as int] == d0[s0.block_id_at(
                d0,
                j,
            ) as int],
        forall|bk: int|
            0 <= bk < d0.len() && dh[bk] != d[bk] ==> bk == s_all[pt1] as int
                || bk == s_all[pt2] as int,
        0 <= pt1 < blocks_through(i + 1),
        0 <= pt2 < blocks_through(i + 1),
        plan_meta_pos(pt1, i, old_db),
        plan_meta_pos(pt2, i, old_db),
    ensures
        forall|bk: int|
            0 <= bk < d0.len() && !s_all.take(blocks_through(i + 1)).contains(bk as u32)
                ==> #[trigger] d[bk] == d0[bk],
        forall|j: int|
            0 <= j < old_db ==> #[trigger] d[s0.block_id_at(d0, j) as int] == d0[s0.block_id_at(
                d0,
                j,
            ) as int],
{
    lemma_bt_mono(old_db, i);
    lemma_bt_step(i);
    lemma_bt_mono(i + 1, db);
    assert forall|bk: int|
        0 <= bk < d0.len() && !s_all.take(blocks_through(i + 1)).contains(bk as u32) implies
        #[trigger] d[bk] == d0[bk] by {
        assert(!s_all.take(prev).contains(bk as u32)) by {
            if s_all.take(prev).contains(bk as u32) {
                let p = choose|p: int| 0 <= p < prev && s_all.take(prev)[p] == bk as u32;
                assert(s_all.take(blocks_through(i + 1))[p] == bk as u32);
            }
        }
        assert(dh[bk] == d0[bk]);
        assert(bk != s_all[pt1] as int && bk != s_all[pt2] as int) by {
            if bk == s_all[pt1] as int {
                assert(s_all.take(blocks_through(i + 1))[pt1] == bk as u32);
            }
            if bk == s_all[pt2] as int {
                assert(s_all.take(blocks_through(i + 1))[pt2] == bk as u32);
            }
        }
    }
    assert forall|j: int| 0 <= j < old_db implies #[trigger] d[s0.block_id_at(d0, j) as int]
        == d0[s0.block_id_at(d0, j) as int] by {
        let q = blocks_through(j + 1) - 1;
        lemma_bt_mono(j + 1, old_db);
        lemma_not_bid_pos(j);
        assert(q != pt1 && q != pt2) by {
            assert forall|pt: int| plan_meta_pos(pt, i, old_db) implies q != pt by {
                if pt >= blocks_through(old_db) {
                } else if pt == INODE_DIRECT_COUNT || pt == INDIRECT1_BOUND + 1 {
                } else {
                    let aa = choose|aa: int| 0 <= aa < l2_count(i + 1) && pt == l2_pos(aa);
                    lemma_l2_pos_bounds(aa, i + 1);
                }
            }
        }
        assert(s0.block_id_at(d0, j) != s_all[pt1] && s0.block_id_at(d0, j) != s_all[pt2]) by {
            lemma_bt_mono(j + 1, i + 1);
        }
        assert((s0.block_id_at(d0, j) as int) < d0.len()) by {
            lemma_bt_mono(j + 1, i + 1);
        }
        assert(d[s0.block_id_at(d0, j) as int] == dh[s0.block_id_at(d0, j) as int]);
    }
}

/// A wiring that reads the same ids out of two stores is sound in the
/// second whenever it is sound in the first.
proof fn lemma_wf_preserved_same_collect(
    s: DiskInode,
    d1: Seq<Seq<u8>>,
    d2: Seq<Seq<u8>>,
    db: int,
)
    requires
        0 <= db <= INDIRECT2_BOUND,
        d1.len() == d2.len(),
        s.blocks_wf_upto(d1, db),
        forall|j: int| 0 <= j < db ==> #[trigger] s.block_id_at(d1, j) == s.block_id_at(d2, j),
        forall|aa: int|
            0 <= aa < l2_count(db) ==> #[trigger] s.l2_block(d1, aa) == s.l2_block(d2, aa),
    ensures
        s.blocks_wf_upto(d2, db),
{
    assert forall|ii: int| 0 <= ii < db implies (#[trigger] s.block_id_at(d2, ii) as int)
        < d2.len() by {
        assert(s.block_id_at(d1, ii) == s.block_id_at(d2, ii));
    }
    assert forall|aa: int| 0 <= aa < l2_count(db) implies (#[trigger] s.l2_block(d2, aa) as int)
        < d2.len() by {
        assert(s.l2_block(d1, aa) == s.l2_block(d2, aa));
    }
}

/// A wiring sound for `n2` data blocks is sound for any fewer.
pub proof fn lemma_blocks_wf_upto_mono(inode: DiskInode, disk: Seq<Seq<u8>>, n1: int, n2: int)
    requires
        0 <= n1 <= n2,
        inode.blocks_wf_upto(disk, n2),
    ensures
        inode.blocks_wf_upto(disk, n1),
{
    lemma_l2_count_mono(n1, n2);
}

/// The traversal reads only the direct table, the indirect ids and the
/// indirect blocks' contents — never the file size.
pub proof fn lemma_collect_congruent(
    a: DiskInode,
    b: DiskInode,
    disk: Seq<Seq<u8>>,
    n: int,
)
    requires
        a.direct@ == b.direct@,
        a.indirect1 == b.indirect1,
        a.indirect2 == b.indirect2,
    ensures
        a.collect_upto(disk, n) == b.collect_upto(disk, n),
        forall|i: int| #[trigger] a.block_id_at(disk, i) == b.block_id_at(disk, i),
    decreases n,
{
    assert forall|i: int| #[trigger] a.block_id_at(disk, i) == b.block_id_at(disk, i) by {
        assert(a.l2_block(disk, (i - INDIRECT1_BOUND) / (INODE_INDIRECT1_COUNT as int))
            == b.l2_block(disk, (i - INDIRECT1_BOUND) / (INODE_INDIRECT1_COUNT as int)));
    }
    if n > 0 {
        lemma_collect_congruent(a, b, disk, n - 1);
        assert(a.meta_before(disk, n - 1) == b.meta_before(disk, n - 1));
        assert(a.collect_upto(disk, n) == b.collect_upto(disk, n));
    }
}

/// A larger file never needs fewer blocks.
proof fn lemma_total_blocks_monotone(s1: u32, s2: u32)
    requires
        s1 <= s2,
    ensures
        data_blocks_of(s1) <= data_blocks_of(s2),
        total_blocks_of(s1) <= total_blocks_of(s2),
{
    let c = BLOCK_SZ as int;
    assert((s1 + c - 1) as int / c <= (s2 + c - 1) as int / c) by (nonlinear_arith)
        requires s1 <= s2, c == 512,
    ;
    let d1 = data_blocks_of(s1);
    let d2 = data_blocks_of(s2);
    if d2 > INDIRECT1_BOUND {
        let k = INODE_INDIRECT1_COUNT as int;
        assert(l2_count(d1) <= l2_count(d2)) by (nonlinear_arith)
            requires d1 <= d2, k == 128, l2_count(d1) == if d1 > INDIRECT1_BOUND { (d1 - INDIRECT1_BOUND + k - 1) / k } else { 0int }, l2_count(d2) == if d2 > INDIRECT1_BOUND { (d2 - INDIRECT1_BOUND + k - 1) / k } else { 0int },
        ;
    }
}


/// Law: a file holds exactly `size` bytes, and they are exactly the bytes
/// reachable through `get_block_id` over block indices `0 .. ceil(size/512)`:
/// those blocks cover positions `0 .. size` byte for byte, and no more than
/// one partly-used block hangs at the end.
pub proof fn lemma_size_is_reachable_bytes(inode: DiskInode, disk: Seq<Seq<u8>>)
    requires
        inode.inode_wf(),
    ensures
        inode.file_bytes(disk).len() == inode.size,
        forall|p: int|
            0 <= p < inode.size ==> #[trigger] inode.file_bytes(disk)[p] == disk[inode
                .block_id_at(disk, p / (BLOCK_SZ as int)) as int][p % (BLOCK_SZ as int)],
        forall|p: int|
            0 <= p < inode.size ==> 0 <= #[trigger] (p / (BLOCK_SZ as int)) < data_blocks_of(
                inode.size,
            ),
        inode.size <= data_blocks_of(inode.size) * BLOCK_SZ,
        data_blocks_of(inode.size) * BLOCK_SZ < inode.size + BLOCK_SZ,
{
    assert forall|p: int| 0 <= p < inode.size implies 0 <= #[trigger] (p / (BLOCK_SZ as int))
        < data_blocks_of(inode.size) by {
        inode.lemma_byte_pos(p);
    }
    let sz = inode.size as int;
    assert(sz <= (sz + 511) / 512 * 512 && (sz + 511) / 512 * 512 < sz + 512) by (
    nonlinear_arith)
        requires 0 <= sz,
    ;
}

/// Law: growing a fresh (empty) inode to `new_size` consumes
/// `total_blocks(new_size)` ids, and those are then exactly the blocks the
/// inode owns — so a following `clear_size` hands back a vector of that
/// same length.
pub proof fn lemma_grow_then_clear_count(
    fresh: DiskInode,
    d0: Seq<Seq<u8>>,
    grown: DiskInode,
    d1: Seq<Seq<u8>>,
    new_blocks: Seq<u32>,
    new_size: u32,
)
    requires
        fresh.inode_wf(),
        fresh.size == 0,
        grown.size == new_size,
        data_blocks_of(new_size) <= INDIRECT2_BOUND,
        // what `increase_size` ensures of the grown inode
        grown.owned_blocks(d1) == fresh.owned_blocks(d0) + new_blocks,
        new_blocks.len() == total_blocks_of(new_size) - total_blocks_of(fresh.size),
    ensures
        fresh.owned_blocks(d0).len() == 0,
        // what `clear_size` then returns has exactly `total_blocks` entries
        grown.owned_blocks(d1).len() == total_blocks_of(new_size),
{
    assert(data_blocks_of(0) == 0);
    assert(fresh.owned_blocks(d0) == fresh.collect_upto(d0, 0));
}

/// The super block at block zero of a file-system image.
pub struct SuperBlock {
    /// Magic number; `EFS_MAGIC` marks a valid image.
    pub magic: u32,
    /// Total number of blocks in the image.
    pub total_blocks: u32,
    /// Number of blocks holding the inode bitmap.
    pub inode_bitmap_blocks: u32,
    /// Number of blocks holding inode records.
    pub inode_area_blocks: u32,
    /// Number of blocks holding the data bitmap.
    pub data_bitmap_blocks: u32,
    /// Number of data blocks.
    pub data_area_blocks: u32,
}

impl SuperBlock {
    /// A super block is valid when it carries the magic number.
    pub open spec fn valid(&self) -> bool {
        self.magic == EFS_MAGIC
    }

    /// An all-zero super block, not yet valid.
    pub fn empty() -> (r: SuperBlock)
        ensures
            !r.valid(),
            r.total_blocks == 0,
    {
        SuperBlock {
            magic: 0,
            total_blocks: 0,
            inode_bitmap_blocks: 0,
            inode_area_blocks: 0,
            data_bitmap_blocks: 0,
            data_area_blocks: 0,
        }
    }

    /// Stamp the magic number and record the region sizes of the image.
    pub fn initialize(
        &mut self,
        total_blocks: u32,
        inode_bitmap_blocks: u32,
        inode_area_blocks: u32,
        data_bitmap_blocks: u32,
        data_area_blocks: u32,
    )
        ensures
            final(self).valid(),
            final(self).total_blocks == total_blocks,
            final(self).inode_bitmap_blocks == inode_bitmap_blocks,
            final(self).inode_area_blocks == inode_area_blocks,
            final(self).data_bitmap_blocks == data_bitmap_blocks,
            final(self).data_area_blocks == data_area_blocks,
    {
        *self = SuperBlock {
            magic: EFS_MAGIC,
            total_blocks,
            inode_bitmap_blocks,
            inode_area_blocks,
            data_bitmap_blocks,
            data_area_blocks,
        };
    }

    /// Whether the block carries the magic number of a valid image.
    pub fn is_valid(&self) -> (r: bool)
        ensures
            r == self.valid(),
    {
        self.magic == EFS_MAGIC
    }
}

/// A directory entry: a zero-padded name of at most `NAME_LENGTH_LIMIT`
/// bytes and the number of the inode it names. Serialized into exactly
/// `DIRENT_SZ` bytes: the name field, then the inode number little-endian.
pub struct DirEntry {
    name: Vec<u8>,
    inode_number: u32,
}

/// The bytes a directory entry occupies on disk.
pub open spec fn dirent_bytes(name: Seq<u8>, inode_number: u32) -> Seq<u8> {
    name + seq![
        (inode_number % 0x100) as u8,
        (inode_number / 0x100 % 0x100) as u8,
        (inode_number / 0x10000 % 0x100) as u8,
        (inode_number / 0x1000000) as u8,
    ]
}

impl DirEntry {
    /// The name field holds exactly `NAME_LENGTH_LIMIT + 1` bytes, the last
    /// of which is always zero.
    pub closed spec fn wf(&self) -> bool {
        &&& self.name@.len() == NAME_LENGTH_LIMIT + 1
        &&& self.name@[NAME_LENGTH_LIMIT as int] == 0
    }

    /// The stored, zero-padded name field.
    pub closed spec fn spec_name(&self) -> Seq<u8> {
        self.name@
    }

    /// The stored inode number.
    pub closed spec fn spec_inode_number(&self) -> u32 {
        self.inode_number
    }

    /// An all-zero entry.
    pub fn empty() -> (r: DirEntry)
        ensures
            r.wf(),
            r.spec_inode_number() == 0,
            forall|k: int| 0 <= k < NAME_LENGTH_LIMIT + 1 ==> #[trigger] r.spec_name()[k] == 0,
    {
        let name: Vec<u8> = vec![0u8; NAME_LENGTH_LIMIT + 1];
        DirEntry { name, inode_number: 0 }
    }

    /// An entry naming inode `inode_number` as `name`, zero-padded.
    pub fn new(name: &Vec<u8>, inode_number: u32) -> (r: DirEntry)
        requires
            name@.len() <= NAME_LENGTH_LIMIT,
        ensures
            r.wf(),
            r.spec_inode_number() == inode_number,
            r.spec_name().take(name@.len() as int) == name@,
            forall|k: int|
                name@.len() <= k < NAME_LENGTH_LIMIT + 1 ==> #[trigger] r.spec_name()[k] == 0,
    {
        let mut bytes: Vec<u8> = Vec::new();
        let mut k: usize = 0;
        while k < name.len()
            invariant
                k <= name@.len() <= NAME_LENGTH_LIMIT,
                bytes@ == name@.take(k as int),
            decreases name@.len() - k,
        {
            bytes.push(name[k]);
            proof {
                assert(bytes@ =~= name@.take(k as int + 1));
            }
            k += 1;
        }
        while k < NAME_LENGTH_LIMIT + 1
            invariant
                name@.len() <= k <= NAME_LENGTH_LIMIT + 1,
                bytes@.len() == k,
                bytes@.take(name@.len() as int) == name@,
                forall|q: int| name@.len() <= q < k ==> #[trigger] bytes@[q] == 0,
            decreases NAME_LENGTH_LIMIT + 1 - k,
        {
            bytes.push(0);
            proof {
                assert(bytes@.take(name@.len() as int) =~= name@);
            }
            k += 1;
        }
        proof {
            assert(name@.take(name@.len() as int) =~= name@);
        }
        DirEntry { name: bytes, inode_number }
    }

    /// The name as stored, up to and without its first zero byte.
    pub fn name(&self) -> (r: Vec<u8>)
        requires
            self.wf(),
        ensures
            r@.len() <= NAME_LENGTH_LIMIT,
            r@ == self.spec_name().take(r@.len() as int),
            forall|k: int| 0 <= k < r@.len() ==> #[trigger] self.spec_name()[k] != 0,
            self.spec_name()[r@.len() as int] == 0,
    {
        let mut out: Vec<u8> = Vec::new();
        let mut k: usize = 0;
        while k < NAME_LENGTH_LIMIT + 1
            invariant
                self.wf(),
                k <= NAME_LENGTH_LIMIT + 1,
                out@.len() == k,
                out@ == self.spec_name().take(k as int),
                forall|q: int| 0 <= q < k ==> #[trigger] self.spec_name()[q] != 0,
            decreases NAME_LENGTH_LIMIT + 1 - k,
        {
            let b = self.name[k];
            if b == 0 {
                return out;
            }
            out.push(b);
            proof {
                assert(out@ =~= self.spec_name().take(k as int + 1));
            }
            k += 1;
        }
        proof {
            assert(false);
        }
        out
    }

    /// The number of the inode this entry names.
    pub fn inode_number(&self) -> (r: u32)
        ensures
            r == self.spec_inode_number(),
    {
        self.inode_number
    }

    /// Serialize into exactly `DIRENT_SZ` bytes: name, then the inode
    /// number little-endian.
    pub fn to_bytes(&self) -> (r: Vec<u8>)
        requires
            self.wf(),
        ensures
            r@.len() == DIRENT_SZ,
            r@ == dirent_bytes(self.spec_name(), self.spec_inode_number()),
    {
        let mut out: Vec<u8> = Vec::new();
        let mut k: usize = 0;
        while k < NAME_LENGTH_LIMIT + 1
            invariant
                self.wf(),
                k <= NAME_LENGTH_LIMIT + 1,
                out@ == self.spec_name().take(k as int),
            decreases NAME_LENGTH_LIMIT + 1 - k,
        {
            out.push(self.name[k]);
            proof {
                assert(out@ =~= self.spec_name().take(k as int + 1));
            }
            k += 1;
        }
        let n = self.inode_number;
        out.push((n % 0x100) as u8);
        out.push((n / 0x100 % 0x100) as u8);
        out.push((n / 0x10000 % 0x100) as u8);
        out.push((n / 0x1000000) as u8);
        proof {
            assert(self.spec_name().take(NAME_LENGTH_LIMIT + 1) =~= self.spec_name());
            assert(out@ =~= dirent_bytes(self.spec_name(), self.spec_inode_number()));
        }
        out
    }

    /// Rebuild an entry from its `DIRENT_SZ` serialized bytes.
    pub fn from_bytes(bytes: &Vec<u8>) -> (r: DirEntry)
        requires
            bytes@.len() == DIRENT_SZ,
            bytes@[NAME_LENGTH_LIMIT as int] == 0,
        ensures
            r.wf(),
            r.spec_name() == bytes@.take(NAME_LENGTH_LIMIT + 1),
            bytes@ == dirent_bytes(r.spec_name(), r.spec_inode_number()),
    {
        let mut name: Vec<u8> = Vec::new();
        let mut k: usize = 0;
        while k < NAME_LENGTH_LIMIT + 1
            invariant
                bytes@.len() == DIRENT_SZ,
                k <= NAME_LENGTH_LIMIT + 1,
                name@ == bytes@.take(k as int),
            decreases NAME_LENGTH_LIMIT + 1 - k,
        {
            name.push(bytes[k]);
            proof {
                assert(name@ =~= bytes@.take(k as int + 1));
            }
            k += 1;
        }
        let b0 = bytes[NAME_LENGTH_LIMIT + 1];
        let b1 = bytes[NAME_LENGTH_LIMIT + 2];
        let b2 = bytes[NAME_LENGTH_LIMIT + 3];
        let b3 = bytes[NAME_LENGTH_LIMIT + 4];
        let n = b0 as u32 + b1 as u32 * 0x100 + b2 as u32 * 0x10000 + b3 as u32 * 0x1000000;
        proof {
            crate::disk::lemma_le_bytes_roundtrip(n, b0, b1, b2, b3);
        }
        let r = DirEntry { name, inode_number: n };
        proof {
            assert(bytes@ =~= dirent_bytes(r.spec_name(), r.spec_inode_number()));
        }
        r
    }
}

/// Law: serializing a directory entry and reading it back yields the entry:
/// the name field and the inode number round-trip through `DIRENT_SZ` bytes.
pub proof fn lemma_dirent_roundtrip(name: Seq<u8>, n1: u32, n2: u32)
    requires
        dirent_bytes(name, n1) == dirent_bytes(name, n2),
    ensures
        n1 == n2,
{
    let b = dirent_bytes(name, n1);
    let l = name.len() as int;
    assert(b[l] == (n1 % 0x100) as u8 && b[l + 1] == (n1 / 0x100 % 0x100) as u8 && b[l + 2] == (
    n1 / 0x10000 % 0x100) as u8 && b[l + 3] == (n1 / 0x1000000) as u8);
    assert(n1 % 0x100 == n2 % 0x100 && n1 / 0x100 % 0x100 == n2 / 0x100 % 0x100 && n1 / 0x10000
        % 0x100 == n2 / 0x10000 % 0x100 && n1 / 0x1000000 == n2 / 0x1000000);
    assert(n1 == n2) by (bit_vector)
        requires
            n1 % 0x100 == n2 % 0x100,
            n1 / 0x100 % 0x100 == n2 / 0x100 % 0x100,
            n1 / 0x10000 % 0x100 == n2 / 0x10000 % 0x100,
            n1 / 0x1000000 == n2 / 0x1000000,
    ;
}

} // verus!
