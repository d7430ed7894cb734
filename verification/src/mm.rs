//! Address translation: three-level 512-ary page tables and per-address-
//! space memory sets, with the trampoline page mapped at the same virtual
//! page in every space.
//!
//! Physical frames are abstract page numbers here — the frame allocator
//! hands them out and the hardware walks the real tables; what is verified
//! is the walk itself: which virtual page reaches which entry.

use vstd::prelude::*;
use crate::allocators::FrameAllocator;

verus! {

/// Entries per page table.
pub const ENTRIES: usize = 512;

/// Valid.
pub const PTE_V: u8 = 1;

/// Readable.
pub const PTE_R: u8 = 2;

/// Writable.
pub const PTE_W: u8 = 4;

/// Executable.
pub const PTE_X: u8 = 8;

/// User-accessible.
pub const PTE_U: u8 = 16;

/// One past the largest virtual page number: `512 * 512 * 512`.
pub const VPN_LIMIT: usize = 134217728;

/// One past the largest physical page number an entry can carry; covers
/// every frame of the physical memory this kernel manages.
pub const PPN_LIMIT: usize = 4194304;

/// The virtual page of the trampoline: the very top of the address space.
pub const TRAMPOLINE_VPN: usize = 134217727;

/// Most loadable segments one program image may carry. Together with
/// `MAX_SEGMENT_PAGES` it keeps the worst-case table count — one mid and
/// one leaf table per page, plus the trampoline's — below `PPN_LIMIT`.
pub const MAX_LOAD_SEGMENTS: usize = 16;

/// Most pages one loadable segment may span; see `MAX_LOAD_SEGMENTS`.
pub const MAX_SEGMENT_PAGES: usize = 65536;

/// A page-table entry: a physical page number and flag bits, packed as
/// `ppn * 1024 + flags`.
#[derive(Clone, Copy, PartialEq, Eq, Structural, Debug)]
pub struct PageTableEntry {
    /// The packed bits.
    pub bits: usize,
}

/// The physical page number packed into entry bits.
pub open spec fn pte_ppn(bits: usize) -> int {
    bits as int / 1024
}

/// The flag bits packed into entry bits.
pub open spec fn pte_flags(bits: usize) -> int {
    bits as int % 1024
}

/// Whether entry bits carry the valid flag.
pub open spec fn pte_valid(bits: usize) -> bool {
    pte_flags(bits) % 2 == 1
}

/// The packed form of a physical page number and flags.
pub open spec fn pte_bits(ppn: usize, flags: u8) -> int {
    ppn * 1024 + flags
}

/// Packing and unpacking an entry round-trips.
pub proof fn lemma_pte_roundtrip(ppn: usize, flags: u8)
    requires
        ppn < PPN_LIMIT,
    ensures
        pte_ppn((ppn * 1024 + flags as usize) as usize) == ppn,
        pte_flags((ppn * 1024 + flags as usize) as usize) == flags,
{
    let b = ppn * 1024 + flags as usize;
    assert(b as int / 1024 == ppn && b as int % 1024 == flags) by (nonlinear_arith)
        requires
            b == ppn * 1024 + flags,
            flags < 1024,
            0 <= ppn,
    ;
}

impl PageTableEntry {
    /// Pack a physical page number with flags.
    pub fn new(ppn: usize, flags: u8) -> (r: PageTableEntry)
        requires
            ppn < PPN_LIMIT,
        ensures
            r.bits == pte_bits(ppn, flags),
            pte_ppn(r.bits) == ppn,
            pte_flags(r.bits) == flags,
    {
        proof {
            lemma_pte_roundtrip(ppn, flags);
        }
        PageTableEntry { bits: ppn * 1024 + flags as usize }
    }

    /// The physical page number.
    pub fn ppn(&self) -> (r: usize)
        ensures
            r == pte_ppn(self.bits),
    {
        self.bits / 1024
    }

    /// The flag bits.
    pub fn flags(&self) -> (r: u8)
        requires
            pte_flags(self.bits) < 256,
        ensures
            r == pte_flags(self.bits),
    {
        (self.bits % 1024) as u8
    }

    /// Whether the entry is valid.
    pub fn is_valid(&self) -> (r: bool)
        ensures
            r == pte_valid(self.bits),
    {
        self.bits % 2 == 1
    }
}

/// Index of `vpn` into the root table.
pub open spec fn idx0(vpn: usize) -> int {
    vpn as int / (512int * 512)
}

/// Index of `vpn` into its mid-level table.
pub open spec fn idx1(vpn: usize) -> int {
    vpn as int / 512 % 512
}

/// Index of `vpn` into its leaf table.
pub open spec fn idx2(vpn: usize) -> int {
    vpn as int % 512
}

/// Two virtual pages agree exactly when all three of their indices do.
pub proof fn lemma_vpn_indices(v1: usize, v2: usize)
    requires
        v1 < VPN_LIMIT,
        v2 < VPN_LIMIT,
    ensures
        (idx0(v1) == idx0(v2) && idx1(v1) == idx1(v2) && idx2(v1) == idx2(v2)) <==> v1 == v2,
        0 <= idx0(v1) < 512,
        0 <= idx1(v1) < 512,
        0 <= idx2(v1) < 512,
{
    assert(v1 as int == idx0(v1) * (512int * 512) + idx1(v1) * 512 + idx2(v1) && 0 <= idx0(v1)
        < 512 && 0 <= idx1(v1) < 512 && 0 <= idx2(v1) < 512) by (nonlinear_arith)
        requires
            v1 < 134217728,
            idx0(v1) == v1 as int / (512int * 512),
            idx1(v1) == v1 as int / 512 % 512,
            idx2(v1) == v1 as int % 512,
    ;
    assert(v2 as int == idx0(v2) * (512int * 512) + idx1(v2) * 512 + idx2(v2)) by (nonlinear_arith)
        requires
            v2 < 134217728,
            idx0(v2) == v2 as int / (512int * 512),
            idx1(v2) == v2 as int / 512 % 512,
            idx2(v2) == v2 as int % 512,
    ;
}

/// A three-level page table: the root, the mid-level tables and the leaf
/// tables, each holding 512 packed entries. A valid root entry's "ppn"
/// names a mid-level table; a valid mid-level entry's names a leaf table;
/// leaf entries carry real physical page numbers.
pub struct PageTable {
    root: Vec<usize>,
    mid: Vec<Vec<usize>>,
    leaf: Vec<Vec<usize>>,
}

impl PageTable {
    /// The root table.
    pub closed spec fn spec_root(&self) -> Seq<usize> {
        self.root@
    }

    /// The mid-level tables.
    pub closed spec fn spec_mid(&self) -> Seq<Seq<usize>> {
        self.mid@.map(|i: int, t: Vec<usize>| t@)
    }

    /// The leaf tables.
    pub closed spec fn spec_leaf(&self) -> Seq<Seq<usize>> {
        self.leaf@.map(|i: int, t: Vec<usize>| t@)
    }

    /// Every table is full-width, every valid link lands on a table, and
    /// no two links share a target.
    pub open spec fn wf(&self) -> bool {
        &&& self.spec_root().len() == ENTRIES
        &&& (forall|t: int|
            0 <= t < self.spec_mid().len() ==> (#[trigger] self.spec_mid()[t]).len() == ENTRIES)
        &&& (forall|t: int|
            0 <= t < self.spec_leaf().len() ==> (#[trigger] self.spec_leaf()[t]).len()
                == ENTRIES)
        &&& (forall|s: int|
            0 <= s < ENTRIES && pte_valid(#[trigger] self.spec_root()[s]) ==> pte_ppn(
                self.spec_root()[s],
            ) < self.spec_mid().len())
        &&& (forall|t: int, s: int|
            0 <= t < self.spec_mid().len() && 0 <= s < ENTRIES && pte_valid(
                #[trigger] self.spec_mid()[t][s],
            ) ==> pte_ppn(self.spec_mid()[t][s]) < self.spec_leaf().len())
        &&& (forall|s1: int, s2: int|
            0 <= s1 < ENTRIES && 0 <= s2 < ENTRIES && s1 != s2 && pte_valid(
                #[trigger] self.spec_root()[s1],
            ) && pte_valid(#[trigger] self.spec_root()[s2]) ==> pte_ppn(self.spec_root()[s1])
                != pte_ppn(self.spec_root()[s2]))
        &&& (forall|t1: int, s1: int, t2: int, s2: int|
            0 <= t1 < self.spec_mid().len() && 0 <= s1 < ENTRIES && 0 <= t2
                < self.spec_mid().len() && 0 <= s2 < ENTRIES && (t1 != t2 || s1 != s2)
                && pte_valid(#[trigger] self.spec_mid()[t1][s1]) && pte_valid(
                #[trigger] self.spec_mid()[t2][s2],
            ) ==> pte_ppn(self.spec_mid()[t1][s1]) != pte_ppn(self.spec_mid()[t2][s2]))
    }

    /// What the walk finds for `vpn`: the leaf entry bits, or nothing
    /// when any level breaks off.
    pub open spec fn translate_spec(&self, vpn: usize) -> Option<usize> {
        let e0 = self.spec_root()[idx0(vpn)];
        if !pte_valid(e0) {
            None
        } else {
            let e1 = self.spec_mid()[pte_ppn(e0)][idx1(vpn)];
            if !pte_valid(e1) {
                None
            } else {
                let e2 = self.spec_leaf()[pte_ppn(e1)][idx2(vpn)];
                if !pte_valid(e2) {
                    None
                } else {
                    Some(e2)
                }
            }
        }
    }

    /// An empty table: a zeroed root and no lower tables.
    pub fn new() -> (r: PageTable)
        ensures
            r.wf(),
            forall|vpn: usize| vpn < VPN_LIMIT ==> #[trigger] r.translate_spec(vpn) is None,
            r.spec_mid().len() == 0,
            r.spec_leaf().len() == 0,
    {
        let root: Vec<usize> = vec![0usize; ENTRIES];
        let r = PageTable { root, mid: Vec::new(), leaf: Vec::new() };
        proof {
            assert forall|vpn: usize| vpn < VPN_LIMIT implies #[trigger] r.translate_spec(vpn)
                is None by {
                lemma_vpn_indices(vpn, vpn);
                assert(r.spec_root()[idx0(vpn)] == 0);
                assert(!pte_valid(0));
            }
        }
        r
    }

    /// The pure walk: the leaf entry serving `vpn`, if every level is
    /// wired.
    pub fn translate(&self, vpn: usize) -> (r: Option<PageTableEntry>)
        requires
            self.wf(),
            vpn < VPN_LIMIT,
        ensures
            r is None <==> self.translate_spec(vpn) is None,
            r matches Some(pte) ==> Some(pte.bits) == self.translate_spec(vpn),
    {
        proof {
            lemma_vpn_indices(vpn, vpn);
        }
        let i0 = vpn / (512 * 512);
        let i1 = vpn / 512 % 512;
        let i2 = vpn % 512;
        let e0 = self.root[i0];
        if e0 % 2 != 1 {
            return None;
        }
        let t1 = e0 / 1024;
        let e1 = self.mid[t1][i1];
        if e1 % 2 != 1 {
            return None;
        }
        let t2 = e1 / 1024;
        let e2 = self.leaf[t2][i2];
        if e2 % 2 != 1 {
            return None;
        }
        Some(PageTableEntry { bits: e2 })
    }

    /// Wire `vpn` to `ppn` with `flags` plus the valid bit, growing the
    /// intermediate tables as needed. The page must not be mapped yet;
    /// every other page keeps its translation.
    #[verifier::rlimit(50)]
    pub fn map(&mut self, vpn: usize, ppn: usize, flags: u8)
        requires
            old(self).wf(),
            vpn < VPN_LIMIT,
            ppn < PPN_LIMIT,
            old(self).translate_spec(vpn) is None,
            old(self).spec_mid().len() + 1 < PPN_LIMIT,
            old(self).spec_leaf().len() + 1 < PPN_LIMIT,
        ensures
            final(self).wf(),
            final(self).translate_spec(vpn) == Some(
                (pte_bits(ppn, flags | PTE_V)) as usize,
            ),
            forall|v: usize|
                v < VPN_LIMIT && v != vpn ==> #[trigger] final(self).translate_spec(v) == old(
                    self,
                ).translate_spec(v),
            final(self).spec_mid().len() <= old(self).spec_mid().len() + 1,
            final(self).spec_leaf().len() <= old(self).spec_leaf().len() + 1,
    {
        proof {
            lemma_vpn_indices(vpn, vpn);
        }
        let i0 = vpn / (512 * 512);
        let i1 = vpn / 512 % 512;
        let i2 = vpn % 512;
        let ghost pt0 = *self;
        // wire the mid-level table in, fresh if the slot is empty
        let e0 = self.root[i0];
        let t1 = if e0 % 2 != 1 {
            let fresh = self.mid.len();
            self.mid.push(vec![0usize; ENTRIES]);
            let link = PageTableEntry::new(fresh, PTE_V);
            self.root[i0] = link.bits;
            proof {
                assert(self.spec_mid() =~~= pt0.spec_mid().push(seq_zeroes()));
                assert(self.spec_root() =~= pt0.spec_root().update(i0 as int, link.bits));
                lemma_mid_extended(pt0, *self, i0 as int, fresh as int);
            }
            fresh
        } else {
            let t = self.root[i0] / 1024;
            t
        };
        let ghost pt1 = *self;
        // wire the leaf table in, fresh if the slot is empty
        let e1 = self.mid[t1][i1];
        let t2 = if e1 % 2 != 1 {
            let fresh = self.leaf.len();
            self.leaf.push(vec![0usize; ENTRIES]);
            let link = PageTableEntry::new(fresh, PTE_V);
            let mt: &mut Vec<usize> = &mut self.mid[t1];
            mt[i1] = link.bits;
            proof {
                assert(self.spec_leaf() =~~= pt1.spec_leaf().push(seq_zeroes()));
                assert(self.spec_mid() =~~= pt1.spec_mid().update(
                    t1 as int,
                    pt1.spec_mid()[t1 as int].update(i1 as int, link.bits),
                ));
                lemma_leaf_extended(pt1, *self, t1 as int, i1 as int, fresh as int);
            }
            fresh
        } else {
            let t = self.mid[t1][i1] / 1024;
            t
        };
        let ghost pt2 = *self;
        // write the leaf entry itself
        let entry = PageTableEntry::new(ppn, flags | PTE_V);
        let lt: &mut Vec<usize> = &mut self.leaf[t2];
        lt[i2] = entry.bits;
        proof {
            assert(flags | PTE_V == (flags | PTE_V) as u8);
            assert(((flags | PTE_V) as int) % 2 == 1) by (bit_vector)
                requires true,
            ;
            assert(pte_valid(entry.bits)) by {
                lemma_pte_roundtrip(ppn, flags | PTE_V);
            }
            assert(self.spec_leaf() =~~= pt2.spec_leaf().update(
                t2 as int,
                pt2.spec_leaf()[t2 as int].update(i2 as int, entry.bits),
            ));
            lemma_leaf_write(pt2, *self, t2 as int, i2 as int, vpn);
            assert(final_translate_eq(pt0, pt1, vpn));
            assert(final_translate_eq(pt1, pt2, vpn));
        }
    }

    /// Unwire `vpn`: its leaf entry is cleared; the page must be mapped.
    /// Every other page keeps its translation.
    pub fn unmap(&mut self, vpn: usize)
        requires
            old(self).wf(),
            vpn < VPN_LIMIT,
            old(self).translate_spec(vpn) is Some,
        ensures
            final(self).wf(),
            final(self).translate_spec(vpn) is None,
            forall|v: usize|
                v < VPN_LIMIT && v != vpn ==> #[trigger] final(self).translate_spec(v) == old(
                    self,
                ).translate_spec(v),
    {
        proof {
            lemma_vpn_indices(vpn, vpn);
        }
        let i0 = vpn / (512 * 512);
        let i1 = vpn / 512 % 512;
        let i2 = vpn % 512;
        let t1 = self.root[i0] / 1024;
        let t2 = self.mid[t1][i1] / 1024;
        let ghost pt0 = *self;
        let lt: &mut Vec<usize> = &mut self.leaf[t2];
        lt[i2] = 0;
        proof {
            assert(!pte_valid(0));
            assert(self.spec_leaf() =~~= pt0.spec_leaf().update(
                t2 as int,
                pt0.spec_leaf()[t2 as int].update(i2 as int, 0usize),
            ));
            lemma_leaf_write(pt0, *self, t2 as int, i2 as int, vpn);
        }
    }
}

/// The walks of two tables agree on `vpn`.
pub open spec fn final_translate_eq(a: PageTable, b: PageTable, vpn: usize) -> bool {
    a.translate_spec(vpn) == b.translate_spec(vpn)
}

/// Adding a fresh, zeroed mid-level table behind an invalid root slot
/// keeps the table well formed and changes no walk.
proof fn lemma_mid_extended(a: PageTable, b: PageTable, i0: int, fresh: int)
    requires
        a.wf(),
        0 <= i0 < ENTRIES,
        !pte_valid(a.spec_root()[i0]),
        fresh == a.spec_mid().len(),
        b.spec_root() == a.spec_root().update(i0, b.spec_root()[i0]),
        pte_valid(b.spec_root()[i0]),
        pte_ppn(b.spec_root()[i0]) == fresh,
        b.spec_mid() == a.spec_mid().push(seq_zeroes()),
        b.spec_leaf() == a.spec_leaf(),
    ensures
        b.wf(),
        forall|v: usize|
            v < VPN_LIMIT && idx0(v) != i0 ==> #[trigger] b.translate_spec(v)
                == a.translate_spec(v),
        forall|v: usize|
            v < VPN_LIMIT && idx0(v) == i0 ==> #[trigger] b.translate_spec(v) is None
                && a.translate_spec(v) is None,
{
    assert(seq_zeroes().len() == ENTRIES);
    assert forall|v: usize| v < VPN_LIMIT && idx0(v) == i0 implies #[trigger] b.translate_spec(
        v,
    ) is None && a.translate_spec(v) is None by {
        lemma_vpn_indices(v, v);
        assert(b.spec_mid()[fresh][idx1(v)] == 0);
        assert(!pte_valid(0));
    }
    assert forall|v: usize| v < VPN_LIMIT && idx0(v) != i0 implies #[trigger] b.translate_spec(
        v,
    ) == a.translate_spec(v) by {
        lemma_vpn_indices(v, v);
        assert(b.spec_root()[idx0(v)] == a.spec_root()[idx0(v)]);
        if pte_valid(a.spec_root()[idx0(v)]) {
            assert(b.spec_mid()[pte_ppn(a.spec_root()[idx0(v)])] == a.spec_mid()[pte_ppn(
                a.spec_root()[idx0(v)],
            )]);
        }
    }
}

/// Adding a fresh, zeroed leaf table behind an invalid mid-level slot
/// keeps the table well formed and changes no walk.
proof fn lemma_leaf_extended(a: PageTable, b: PageTable, t1: int, i1: int, fresh: int)
    requires
        a.wf(),
        0 <= t1 < a.spec_mid().len(),
        0 <= i1 < ENTRIES,
        !pte_valid(a.spec_mid()[t1][i1]),
        fresh == a.spec_leaf().len(),
        b.spec_root() == a.spec_root(),
        b.spec_mid() == a.spec_mid().update(t1, a.spec_mid()[t1].update(i1, b.spec_mid()[t1][i1])),
        pte_valid(b.spec_mid()[t1][i1]),
        pte_ppn(b.spec_mid()[t1][i1]) == fresh,
        b.spec_leaf() == a.spec_leaf().push(seq_zeroes()),
    ensures
        b.wf(),
        forall|v: usize|
            v < VPN_LIMIT && !(idx0_links(a, v, t1) && idx1(v) == i1) ==> #[trigger] b
                .translate_spec(v) == a.translate_spec(v),
        forall|v: usize|
            v < VPN_LIMIT && idx0_links(a, v, t1) && idx1(v) == i1 ==> #[trigger] b
                .translate_spec(v) is None && a.translate_spec(v) is None,
{
    assert(seq_zeroes().len() == ENTRIES);
    assert forall|v: usize|
        v < VPN_LIMIT && idx0_links(a, v, t1) && idx1(v) == i1 implies #[trigger] b
        .translate_spec(v) is None && a.translate_spec(v) is None by {
        lemma_vpn_indices(v, v);
        assert(b.spec_leaf()[fresh][idx2(v)] == 0);
        assert(!pte_valid(0));
    }
    assert forall|v: usize|
        v < VPN_LIMIT && !(idx0_links(a, v, t1) && idx1(v) == i1) implies #[trigger] b
        .translate_spec(v) == a.translate_spec(v) by {
        lemma_vpn_indices(v, v);
        let e0 = a.spec_root()[idx0(v)];
        if pte_valid(e0) {
            if pte_ppn(e0) != t1 {
                assert(b.spec_mid()[pte_ppn(e0)] == a.spec_mid()[pte_ppn(e0)]);
            } else {
                assert(b.spec_mid()[t1][idx1(v)] == a.spec_mid()[t1][idx1(v)]);
            }
            let e1 = a.spec_mid()[pte_ppn(e0)][idx1(v)];
            if pte_valid(e1) {
                assert(b.spec_leaf()[pte_ppn(e1)] == a.spec_leaf()[pte_ppn(e1)]);
            }
        }
    }
}

/// Whether the root slot of `v` links to mid-level table `t1`.
pub open spec fn idx0_links(a: PageTable, v: usize, t1: int) -> bool {
    pte_valid(a.spec_root()[idx0(v)]) && pte_ppn(a.spec_root()[idx0(v)]) == t1
}

/// Writing one leaf entry moves exactly the one page that walks to it.
proof fn lemma_leaf_write(a: PageTable, b: PageTable, t2: int, i2: int, vpn: usize)
    requires
        a.wf(),
        vpn < VPN_LIMIT,
        0 <= t2 < a.spec_leaf().len(),
        i2 == idx2(vpn),
        b.spec_root() == a.spec_root(),
        b.spec_mid() == a.spec_mid(),
        b.spec_leaf() == a.spec_leaf().update(
            t2,
            a.spec_leaf()[t2].update(i2, b.spec_leaf()[t2][i2]),
        ),
        // the walk of `vpn` reaches leaf table `t2`
        pte_valid(a.spec_root()[idx0(vpn)]),
        pte_valid(a.spec_mid()[pte_ppn(a.spec_root()[idx0(vpn)])][idx1(vpn)]),
        pte_ppn(a.spec_mid()[pte_ppn(a.spec_root()[idx0(vpn)])][idx1(vpn)]) == t2,
    ensures
        b.wf(),
        b.translate_spec(vpn) == if pte_valid(b.spec_leaf()[t2][i2]) {
            Some(b.spec_leaf()[t2][i2])
        } else {
            None::<usize>
        },
        forall|v: usize|
            v < VPN_LIMIT && v != vpn ==> #[trigger] b.translate_spec(v) == a.translate_spec(v),
{
    lemma_vpn_indices(vpn, vpn);
    assert forall|v: usize| v < VPN_LIMIT && v != vpn implies #[trigger] b.translate_spec(v)
        == a.translate_spec(v) by {
        lemma_vpn_indices(v, v);
        lemma_vpn_indices(v, vpn);
        let e0 = a.spec_root()[idx0(v)];
        if pte_valid(e0) {
            let e1 = a.spec_mid()[pte_ppn(e0)][idx1(v)];
            if pte_valid(e1) {
                if pte_ppn(e1) != t2 {
                    assert(b.spec_leaf()[pte_ppn(e1)] == a.spec_leaf()[pte_ppn(e1)]);
                } else {
                    // same leaf table: the walks left the root and
                    // mid-level at the very same slots, so only the leaf
                    // index can differ
                    let f0 = a.spec_root()[idx0(vpn)];
                    let f1 = a.spec_mid()[pte_ppn(f0)][idx1(vpn)];
                    if idx0(v) != idx0(vpn) {
                        assert(pte_ppn(e0) != pte_ppn(f0));
                        assert(pte_ppn(e1) != pte_ppn(f1));
                    } else if idx1(v) != idx1(vpn) {
                        assert(pte_ppn(e1) != pte_ppn(f1));
                    } else {
                        assert(idx2(v) != idx2(vpn));
                        assert(b.spec_leaf()[t2][idx2(v)] == a.spec_leaf()[t2][idx2(v)]);
                    }
                }
            }
        }
    }
}

/// A zeroed table.
pub open spec fn seq_zeroes() -> Seq<usize> {
    Seq::new(ENTRIES as nat, |i: int| 0usize)
}


/// How a region is backed: mapped to the same physical pages (kernel
/// sections) or to freshly allocated frames (user data).
#[derive(Clone, Copy, PartialEq, Eq, Structural, Debug)]
pub enum MapType {
    Identical,
    Framed,
}

/// A contiguous region of virtual pages with one backing and permission.
#[derive(Clone, Copy, PartialEq, Eq, Structural, Debug)]
pub struct MapArea {
    /// First virtual page of the region.
    pub start_vpn: usize,
    /// One past the last virtual page.
    pub end_vpn: usize,
    /// How the region is backed.
    pub map_type: MapType,
    /// Permission flags for the region's leaf entries.
    pub flags: u8,
}

/// A page is mapped with exactly `flags` plus the valid bit.
pub open spec fn mapped_with(pt: PageTable, vpn: usize, flags: u8) -> bool {
    &&& pt.translate_spec(vpn) is Some
    &&& pte_flags(pt.translate_spec(vpn)->Some_0) == (flags | PTE_V)
}

/// An address space: its page table and the regions mapped into it.
pub struct MemorySet {
    /// The space's page table.
    pub page_table: PageTable,
    /// The mapped regions, in the order they were added.
    pub areas: Vec<MapArea>,
}

impl MemorySet {
    /// An empty address space: nothing mapped.
    pub fn new_bare() -> (r: MemorySet)
        ensures
            r.page_table.wf(),
            r.areas@.len() == 0,
            forall|v: usize|
                v < VPN_LIMIT ==> #[trigger] r.page_table.translate_spec(v) is None,
            r.page_table.spec_mid().len() == 0,
            r.page_table.spec_leaf().len() == 0,
    {
        MemorySet { page_table: PageTable::new(), areas: Vec::new() }
    }

    /// Map the trampoline page at its fixed virtual page, readable and
    /// executable but not user-accessible, onto the physical page that
    /// holds the transition code.
    pub fn map_trampoline(&mut self, trampoline_ppn: usize)
        requires
            old(self).page_table.wf(),
            old(self).page_table.translate_spec(TRAMPOLINE_VPN) is None,
            trampoline_ppn < PPN_LIMIT,
            old(self).page_table.spec_mid().len() + 1 < PPN_LIMIT,
            old(self).page_table.spec_leaf().len() + 1 < PPN_LIMIT,
        ensures
            final(self).page_table.wf(),
            final(self).page_table.translate_spec(TRAMPOLINE_VPN) == Some(
                (pte_bits(trampoline_ppn, PTE_R | PTE_X | PTE_V)) as usize,
            ),
            forall|v: usize|
                v < VPN_LIMIT && v != TRAMPOLINE_VPN
                    ==> #[trigger] final(self).page_table.translate_spec(v) == old(
                    self,
                ).page_table.translate_spec(v),
            final(self).areas@ == old(self).areas@,
    {
        self.page_table.map(TRAMPOLINE_VPN, trampoline_ppn, PTE_R | PTE_X);
    }

    /// Map the framed region `[start_vpn, end_vpn)` with `flags`, taking
    /// one fresh frame per page from the allocator. The region must be
    /// free, and the allocator must have a frame for every page.
    #[verifier::rlimit(50)]
    pub fn insert_framed_area(
        &mut self,
        start_vpn: usize,
        end_vpn: usize,
        flags: u8,
        fa: &mut FrameAllocator,
    )
        requires
            old(self).page_table.wf(),
            start_vpn <= end_vpn,
            end_vpn < VPN_LIMIT,
            old(fa).wf(),
            old(fa).spec_end() < PPN_LIMIT,
            old(fa).spec_available() >= end_vpn - start_vpn,
            forall|v: usize|
                start_vpn <= v < end_vpn ==> #[trigger] old(self).page_table.translate_spec(v)
                    is None,
            old(self).page_table.spec_mid().len() + (end_vpn - start_vpn) + 1 < PPN_LIMIT,
            old(self).page_table.spec_leaf().len() + (end_vpn - start_vpn) + 1 < PPN_LIMIT,
        ensures
            final(self).page_table.wf(),
            final(fa).wf(),
            final(fa).spec_end() == old(fa).spec_end(),
            forall|v: usize|
                start_vpn <= v < end_vpn ==> #[trigger] mapped_with(
                    final(self).page_table,
                    v,
                    flags,
                ),
            forall|v: usize|
                v < VPN_LIMIT && !(start_vpn <= v < end_vpn)
                    ==> #[trigger] final(self).page_table.translate_spec(v) == old(
                    self,
                ).page_table.translate_spec(v),
            final(self).areas@ == old(self).areas@.push(
                MapArea { start_vpn, end_vpn, map_type: MapType::Framed, flags },
            ),
            final(self).page_table.spec_mid().len() <= old(self).page_table.spec_mid().len() + (
            end_vpn - start_vpn),
            final(self).page_table.spec_leaf().len() <= old(self).page_table.spec_leaf().len()
                + (end_vpn - start_vpn),
            final(fa).spec_available() >= old(fa).spec_available() - (end_vpn - start_vpn),
    {
        let count = end_vpn - start_vpn;
        let mut k: usize = 0;
        while k < count
            invariant
                self.page_table.wf(),
                fa.wf(),
                fa.spec_end() == old(fa).spec_end(),
                fa.spec_end() < PPN_LIMIT,
                k <= count,
                count == end_vpn - start_vpn,
                end_vpn < VPN_LIMIT,
                fa.spec_available() >= old(fa).spec_available() - k,
                old(fa).spec_available() >= count,
                self.areas@ == old(self).areas@,
                self.page_table.spec_mid().len() <= old(self).page_table.spec_mid().len() + k,
                self.page_table.spec_leaf().len() <= old(self).page_table.spec_leaf().len() + k,
                old(self).page_table.spec_mid().len() + count + 1 < PPN_LIMIT,
                old(self).page_table.spec_leaf().len() + count + 1 < PPN_LIMIT,
                forall|v: usize|
                    start_vpn <= v < end_vpn ==> #[trigger] old(
                        self,
                    ).page_table.translate_spec(v) is None,
                forall|v: usize|
                    start_vpn <= v < start_vpn + k ==> #[trigger] mapped_with(
                        self.page_table,
                        v,
                        flags,
                    ),
                forall|v: usize|
                    v < VPN_LIMIT && !(start_vpn <= v < start_vpn + k)
                        ==> #[trigger] self.page_table.translate_spec(v) == old(
                        self,
                    ).page_table.translate_spec(v),
            decreases count - k,
        {
            let vpn = start_vpn + k;
            let ppn = fa.allocate().unwrap();
            let ghost before = self.page_table;
            proof {
                assert(self.page_table.translate_spec(vpn) == old(
                    self,
                ).page_table.translate_spec(vpn));
            }
            self.page_table.map(vpn, ppn, flags);
            proof {
                lemma_pte_roundtrip(ppn, flags | PTE_V);
                assert(mapped_with(self.page_table, vpn, flags));
                assert forall|v: usize|
                    start_vpn <= v < start_vpn + k + 1 implies #[trigger] mapped_with(
                    self.page_table,
                    v,
                    flags,
                ) by {
                    if v != vpn {
                        assert(mapped_with(before, v, flags));
                        assert(self.page_table.translate_spec(v) == before.translate_spec(v));
                    }
                }
            }
            k += 1;
        }
        self.areas.push(MapArea { start_vpn, end_vpn, map_type: MapType::Framed, flags });
    }

    /// Build a user address space from a program's loadable segments:
    /// one framed, user-accessible region per segment, then the
    /// trampoline on top. Segments must be disjoint, below the
    /// trampoline, and each marked `Framed`.
    #[verifier::rlimit(50)]
    pub fn from_segments(
        segments: &Vec<MapArea>,
        fa: &mut FrameAllocator,
        trampoline_ppn: usize,
    ) -> (r: MemorySet)
        requires
            old(fa).wf(),
            old(fa).spec_end() < PPN_LIMIT,
            trampoline_ppn < PPN_LIMIT,
            segments@.len() < MAX_LOAD_SEGMENTS,
            forall|i: int|
                0 <= i < segments@.len() ==> {
                    &&& (#[trigger] segments@[i]).start_vpn <= segments@[i].end_vpn
                    &&& segments@[i].end_vpn < TRAMPOLINE_VPN
                    &&& segments@[i].end_vpn - segments@[i].start_vpn < MAX_SEGMENT_PAGES
                    &&& segments@[i].map_type == MapType::Framed
                },
            forall|i: int, j: int|
                0 <= i < segments@.len() && 0 <= j < segments@.len() && i != j ==> (
                #[trigger] segments@[i]).end_vpn <= (#[trigger] segments@[j]).start_vpn
                    || segments@[j].end_vpn <= segments@[i].start_vpn,
            old(fa).spec_available() >= MAX_SEGMENT_PAGES * segments@.len() + 1,
        ensures
            r.page_table.wf(),
            final(fa).wf(),
            // every page of every loadable segment translates to a leaf
            // carrying the segment's permissions and the user bit
            forall|i: int, v: usize|
                0 <= i < segments@.len() && segments@[i].start_vpn <= v < segments@[i].end_vpn
                    ==> #[trigger] mapped_with(
                    r.page_table,
                    v,
                    segments@[i].flags | PTE_U,
                ),
            // the trampoline is mapped on top, at the shared physical page
            r.page_table.translate_spec(TRAMPOLINE_VPN) == Some(
                (pte_bits(trampoline_ppn, PTE_R | PTE_X | PTE_V)) as usize,
            ),
    {
        let mut ms = MemorySet::new_bare();
        let mut i: usize = 0;
        while i < segments.len()
            invariant
                ms.page_table.wf(),
                fa.wf(),
                fa.spec_end() == old(fa).spec_end(),
                fa.spec_end() < PPN_LIMIT,
                i <= segments@.len(),
                segments@.len() < 16,
                forall|q: int|
                    0 <= q < segments@.len() ==> {
                        &&& (#[trigger] segments@[q]).start_vpn <= segments@[q].end_vpn
                        &&& segments@[q].end_vpn < TRAMPOLINE_VPN
                        &&& segments@[q].end_vpn - segments@[q].start_vpn < 65536
                    },
                forall|q: int, j: int|
                    0 <= q < segments@.len() && 0 <= j < segments@.len() && q != j ==> (
                    #[trigger] segments@[q]).end_vpn <= (#[trigger] segments@[j]).start_vpn
                        || segments@[j].end_vpn <= segments@[q].start_vpn,
                fa.spec_available() >= 65536 * (segments@.len() - i) + 1,
                ms.page_table.spec_mid().len() <= 65536 * i,
                ms.page_table.spec_leaf().len() <= 65536 * i,
                forall|q: int, v: usize|
                    0 <= q < i && segments@[q].start_vpn <= v < segments@[q].end_vpn
                        ==> #[trigger] mapped_with(
                        ms.page_table,
                        v,
                        segments@[q].flags | PTE_U,
                    ),
                forall|v: usize|
                    v < VPN_LIMIT && (forall|q: int|
                        0 <= q < i ==> !((#[trigger] segments@[q]).start_vpn <= v < segments@[
                            q].end_vpn)) ==> #[trigger] ms.page_table.translate_spec(v) is None,
            decreases segments@.len() - i,
        {
            let seg = segments[i];
            let ghost before = ms.page_table;
            proof {
                assert(65536int * i + (seg.end_vpn - seg.start_vpn) + 1 <= 65536 * 16 + 65537)
                    by (nonlinear_arith)
                    requires
                        i < 16,
                        seg.end_vpn - seg.start_vpn < 65536,
                ;
                assert(65536int * (segments@.len() - i) + 1 >= 65536 + 1) by (nonlinear_arith)
                    requires i < segments@.len(),
                ;
                assert forall|v: usize|
                    seg.start_vpn <= v < seg.end_vpn implies #[trigger] ms
                    .page_table.translate_spec(v) is None by {
                    assert forall|q: int| 0 <= q < i implies !((
                    #[trigger] segments@[q]).start_vpn <= v < segments@[q].end_vpn) by {
                        assert(segments@[q].end_vpn <= seg.start_vpn || seg.end_vpn <= segments@[
                            q].start_vpn);
                    }
                }
            }
            ms.insert_framed_area(seg.start_vpn, seg.end_vpn, seg.flags | PTE_U, fa);
            proof {
                assert forall|q: int, v: usize|
                    0 <= q < i + 1 && segments@[q].start_vpn <= v < segments@[q].end_vpn implies
                    #[trigger] mapped_with(
                    ms.page_table,
                    v,
                    segments@[q].flags | PTE_U,
                ) by {
                    if q < i {
                        assert(segments@[q].end_vpn <= seg.start_vpn || seg.end_vpn <= segments@[
                            q].start_vpn);
                        assert(mapped_with(before, v, segments@[q].flags | PTE_U));
                        assert(ms.page_table.translate_spec(v) == before.translate_spec(v));
                    } else {
                        assert(segments@[q] == seg);
                    }
                }
                assert(65536int * (segments@.len() - i) + 1 - (seg.end_vpn - seg.start_vpn)
                    >= 65536 * (segments@.len() - (i + 1)) + 1) by (nonlinear_arith)
                    requires seg.end_vpn - seg.start_vpn < 65536, i < segments@.len(),
                ;
                assert(ms.page_table.spec_mid().len() <= 65536int * (i + 1)) by (
                nonlinear_arith)
                    requires
                        ms.page_table.spec_mid().len() <= before.spec_mid().len() + (seg.end_vpn
                            - seg.start_vpn),
                        before.spec_mid().len() <= 65536int * i,
                        seg.end_vpn - seg.start_vpn < 65536,
                ;
                assert(ms.page_table.spec_leaf().len() <= 65536int * (i + 1)) by (
                nonlinear_arith)
                    requires
                        ms.page_table.spec_leaf().len() <= before.spec_leaf().len() + (
                        seg.end_vpn - seg.start_vpn),
                        before.spec_leaf().len() <= 65536int * i,
                        seg.end_vpn - seg.start_vpn < 65536,
                ;
            }
            i += 1;
        }
        proof {
            assert(ms.page_table.translate_spec(TRAMPOLINE_VPN) is None) by {
                assert forall|q: int| 0 <= q < segments@.len() implies !((
                #[trigger] segments@[q]).start_vpn <= TRAMPOLINE_VPN < segments@[
                    q].end_vpn) by {}
            }
            assert(ms.page_table.spec_mid().len() + 1 < PPN_LIMIT) by (nonlinear_arith)
                requires
                    ms.page_table.spec_mid().len() <= 65536int * segments@.len(),
                    segments@.len() < 16,
            ;
            assert(ms.page_table.spec_leaf().len() + 1 < PPN_LIMIT) by (nonlinear_arith)
                requires
                    ms.page_table.spec_leaf().len() <= 65536int * segments@.len(),
                    segments@.len() < 16,
            ;
        }
        let ghost msb = ms;
        ms.map_trampoline(trampoline_ppn);
        proof {
            assert forall|i2: int, v: usize|
                0 <= i2 < segments@.len() && segments@[i2].start_vpn <= v < segments@[
                    i2].end_vpn implies #[trigger] mapped_with(
                ms.page_table,
                v,
                segments@[i2].flags | PTE_U,
            ) by {
                assert(v != TRAMPOLINE_VPN);
                assert(mapped_with(msb.page_table, v, segments@[i2].flags | PTE_U));
                assert(ms.page_table.translate_spec(v) == msb.page_table.translate_spec(v));
            }
        }
        ms
    }
}

/// Law: the trampoline page is shared. Its virtual page translates to the
/// same physical page, with the same flags, in every address space that
/// mapped it — the kernel's and every user's.
pub proof fn lemma_trampoline_shared(a: MemorySet, b: MemorySet, trampoline_ppn: usize)
    requires
        trampoline_ppn < PPN_LIMIT,
        // what `map_trampoline` (and `from_segments`) ensured of each space
        a.page_table.translate_spec(TRAMPOLINE_VPN) == Some(
            (pte_bits(trampoline_ppn, PTE_R | PTE_X | PTE_V)) as usize,
        ),
        b.page_table.translate_spec(TRAMPOLINE_VPN) == Some(
            (pte_bits(trampoline_ppn, PTE_R | PTE_X | PTE_V)) as usize,
        ),
    ensures
        a.page_table.translate_spec(TRAMPOLINE_VPN) == b.page_table.translate_spec(
            TRAMPOLINE_VPN,
        ),
        pte_ppn(a.page_table.translate_spec(TRAMPOLINE_VPN)->Some_0) == trampoline_ppn,
        pte_flags(a.page_table.translate_spec(TRAMPOLINE_VPN)->Some_0) == (PTE_R | PTE_X
            | PTE_V),
{
    lemma_pte_roundtrip(trampoline_ppn, PTE_R | PTE_X | PTE_V);
}


} // verus!
