//! Address-translation tests: the three-level walk, entry packing, memory
//! sets built from loadable segments, and the shared trampoline page.

use kernel_core::allocators::FrameAllocator;
use kernel_core::mm::{
    MapArea, MapType, MemorySet, PageTable, PageTableEntry, PTE_R, PTE_U, PTE_V, PTE_W, PTE_X,
    TRAMPOLINE_VPN,
};

/// An entry packs and unpacks its page number and flags.
#[test]
fn pte_packing() {
    let e = PageTableEntry::new(0x80240, PTE_R | PTE_W | PTE_V);
    assert_eq!(e.ppn(), 0x80240);
    assert_eq!(e.flags(), PTE_R | PTE_W | PTE_V);
    assert!(e.is_valid());
    let z = PageTableEntry { bits: 0 };
    assert!(!z.is_valid());
}

/// Mapping wires exactly one page; unmapping clears exactly it.
#[test]
fn map_translate_unmap() {
    let mut pt = PageTable::new();
    assert!(pt.translate(0x1000).is_none());

    pt.map(0x1000, 0x80555, PTE_R | PTE_W);
    let pte = pt.translate(0x1000).unwrap();
    assert_eq!(pte.ppn(), 0x80555);
    assert_eq!(pte.flags(), PTE_R | PTE_W | PTE_V);

    // neighbours in the same leaf table stay unmapped
    assert!(pt.translate(0x0FFF).is_none());
    assert!(pt.translate(0x1001).is_none());
    // pages in other subtrees too
    assert!(pt.translate(0x1000 + 512).is_none());
    assert!(pt.translate(0x1000 + 512 * 512).is_none());

    // a second mapping leaves the first alone
    pt.map(0x2000, 0x80666, PTE_X);
    assert_eq!(pt.translate(0x1000).unwrap().ppn(), 0x80555);
    assert_eq!(pt.translate(0x2000).unwrap().ppn(), 0x80666);

    pt.unmap(0x1000);
    assert!(pt.translate(0x1000).is_none());
    assert_eq!(pt.translate(0x2000).unwrap().ppn(), 0x80666);
}

/// Every page of a loadable segment translates to a leaf carrying the
/// segment's permissions with the user bit set.
#[test]
fn segments_translate_with_user_bit() {
    let mut fa = FrameAllocator::new(0x80400, 0x80900);
    let segments = vec![
        MapArea { start_vpn: 0x10, end_vpn: 0x14, map_type: MapType::Framed, flags: PTE_R | PTE_X },
        MapArea { start_vpn: 0x20, end_vpn: 0x23, map_type: MapType::Framed, flags: PTE_R | PTE_W },
    ];
    let ms = MemorySet::from_segments(&segments, &mut fa, 0x80200);

    for vpn in 0x10..0x14 {
        let pte = ms.page_table.translate(vpn).unwrap();
        assert_eq!(pte.flags(), PTE_R | PTE_X | PTE_U | PTE_V);
    }
    for vpn in 0x20..0x23 {
        let pte = ms.page_table.translate(vpn).unwrap();
        assert_eq!(pte.flags(), PTE_R | PTE_W | PTE_U | PTE_V);
    }
    // the gap between the segments stays unmapped
    assert!(ms.page_table.translate(0x14).is_none());
    assert!(ms.page_table.translate(0x1F).is_none());
}

/// The trampoline translates to the same physical page, without the user
/// bit, in the kernel space and in every user space.
#[test]
fn trampoline_shared_across_spaces() {
    let trampoline_ppn = 0x80200;

    // a bare kernel-side space
    let mut kernel_space = MemorySet::new_bare();
    kernel_space.map_trampoline(trampoline_ppn);

    // two user spaces from different programs
    let mut fa = FrameAllocator::new(0x80400, 0x80900);
    let user_a = MemorySet::from_segments(
        &vec![MapArea {
            start_vpn: 0x10,
            end_vpn: 0x12,
            map_type: MapType::Framed,
            flags: PTE_R | PTE_X,
        }],
        &mut fa,
        trampoline_ppn,
    );
    let user_b = MemorySet::from_segments(
        &vec![MapArea {
            start_vpn: 0x300,
            end_vpn: 0x305,
            map_type: MapType::Framed,
            flags: PTE_R | PTE_W,
        }],
        &mut fa,
        trampoline_ppn,
    );

    let k = kernel_space.page_table.translate(TRAMPOLINE_VPN).unwrap();
    let a = user_a.page_table.translate(TRAMPOLINE_VPN).unwrap();
    let b = user_b.page_table.translate(TRAMPOLINE_VPN).unwrap();
    assert_eq!(k.ppn(), trampoline_ppn);
    assert_eq!(a.ppn(), trampoline_ppn);
    assert_eq!(b.ppn(), trampoline_ppn);
    assert_eq!(k.bits, a.bits);
    assert_eq!(a.bits, b.bits);
    // the transition page is never user-accessible
    assert_eq!(k.flags() & PTE_U, 0);
    assert_eq!(k.flags(), PTE_R | PTE_X | PTE_V);
}

/// A framed area records itself in the space's area list.
#[test]
fn areas_recorded() {
    let mut fa = FrameAllocator::new(0x81000, 0x82000);
    let mut ms = MemorySet::new_bare();
    ms.insert_framed_area(0x40, 0x44, PTE_R | PTE_W, &mut fa);
    assert_eq!(ms.areas.len(), 1);
    assert_eq!(ms.areas[0].start_vpn, 0x40);
    assert_eq!(ms.areas[0].end_vpn, 0x44);
    assert_eq!(ms.areas[0].map_type, MapType::Framed);
}
