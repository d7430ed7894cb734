//! File-system layout tests: growth across the indirect boundaries,
//! read/write round trips, the grow-then-clear accounting, directory
//! entries and the super block.

use kernel_core::disk::Disk;
use kernel_core::layout::{DirEntry, DiskInode, DiskInodeType, SuperBlock};

fn fresh_ids(n: u32) -> Vec<u32> {
    // fresh block ids 1..=n, none zero, all distinct
    (1..=n).collect()
}

fn pattern(len: usize) -> Vec<u8> {
    (0..len).map(|j| (j % 251) as u8).collect()
}

/// Write a small file and read it back; the directory lists its name.
#[test]
fn empty_file_round_trip() {
    let mut disk = Disk::new(64);
    let mut file = DiskInode::new(DiskInodeType::File);
    assert!(file.is_file());
    assert_eq!(file.data_blocks(), 0);

    // grow to hold "hello" and write it at offset 0
    let need = file.blocks_num_needed(5);
    assert_eq!(need, 1);
    file.increase_size(5, fresh_ids(1), &mut disk);
    let data = b"hello".to_vec();
    let written = file.write_at(0, &data, &mut disk);
    assert_eq!(written, 5);

    // read it back
    let mut buf = vec![0u8; 5];
    let read = file.read_at(0, &mut buf, &disk);
    assert_eq!(read, 5);
    assert_eq!(buf, b"hello".to_vec());

    // a directory holding an entry for the file lists its name
    let mut dir = DiskInode::new(DiskInodeType::Directory);
    assert!(dir.is_dir());
    let entry = DirEntry::new(&b"x".to_vec(), 7);
    let bytes = entry.to_bytes();
    assert_eq!(bytes.len(), 32);
    dir.increase_size(32, vec![40], &mut disk);
    let w = dir.write_at(0, &bytes, &mut disk);
    assert_eq!(w, 32);
    let mut rb = vec![0u8; 32];
    let r = dir.read_at(0, &mut rb, &disk);
    assert_eq!(r, 32);
    let listed = DirEntry::from_bytes(&rb);
    assert_eq!(listed.name(), b"x".to_vec());
    assert_eq!(listed.inode_number(), 7);
}

/// A file one byte past the direct area uses the single-indirect block
/// and leaves the double-indirect one unallocated.
#[test]
fn file_grows_past_direct() {
    let size: u32 = 28 * 512 + 1;
    assert_eq!(size, 14337);
    let mut disk = Disk::new(64);
    let mut file = DiskInode::new(DiskInodeType::File);
    let need = file.blocks_num_needed(size);
    assert_eq!(need, 30); // 29 data blocks + the indirect block itself
    file.increase_size(size, fresh_ids(30), &mut disk);
    assert_ne!(file.indirect1, 0);
    assert_eq!(file.indirect2, 0);

    let data = pattern(size as usize);
    let written = file.write_at(0, &data, &mut disk);
    assert_eq!(written, size as usize);
    let mut buf = vec![0u8; size as usize];
    let read = file.read_at(0, &mut buf, &disk);
    assert_eq!(read, size as usize);
    assert_eq!(buf, data);
}

/// A file one byte past the single-indirect area brings the
/// double-indirect block and exactly one second-level block into play.
#[test]
fn file_grows_past_single_indirect() {
    let size: u32 = (28 + 128) * 512 + 1;
    assert_eq!(size, 79873);
    let mut disk = Disk::new(256);
    let mut file = DiskInode::new(DiskInodeType::File);
    let need = file.blocks_num_needed(size);
    // 157 data blocks + indirect1 + indirect2 + one second-level block
    assert_eq!(need, 160);
    file.increase_size(size, fresh_ids(160), &mut disk);
    assert_ne!(file.indirect1, 0);
    assert_ne!(file.indirect2, 0);

    let data = pattern(size as usize);
    let written = file.write_at(0, &data, &mut disk);
    assert_eq!(written, size as usize);
    let mut buf = vec![0u8; size as usize];
    let read = file.read_at(0, &mut buf, &disk);
    assert_eq!(read, size as usize);
    assert_eq!(buf, data);

    // clearing hands back every block: the count shows exactly one
    // second-level indirect block was wired
    let freed = file.clear_size(&disk);
    assert_eq!(freed.len(), 160);
    assert_eq!(file.size, 0);
}

/// Growing a fresh inode and then clearing it returns a vector of
/// exactly `total_blocks(new_size)` ids.
#[test]
fn grow_then_clear_returns_total_blocks() {
    for &size in &[1u32, 512, 14336, 14337, 79872, 79873, 100000] {
        let mut disk = Disk::new(512);
        let mut file = DiskInode::new(DiskInodeType::File);
        let total = DiskInode::total_blocks(size);
        let need = file.blocks_num_needed(size);
        assert_eq!(need, total);
        file.increase_size(size, fresh_ids(need), &mut disk);
        let freed = file.clear_size(&disk);
        assert_eq!(freed.len() as u32, total);
    }
}

/// The freed ids come back in traversal order: the ones handed to a
/// single growth come back in the same order they went in.
#[test]
fn clear_returns_blocks_in_wiring_order() {
    let mut disk = Disk::new(64);
    let mut file = DiskInode::new(DiskInodeType::File);
    let ids = fresh_ids(30);
    file.increase_size(14337, ids.clone(), &mut disk);
    let freed = file.clear_size(&disk);
    assert_eq!(freed, ids);
}

/// Growing in two steps wires the same blocks as the concatenation.
#[test]
fn grow_in_two_steps() {
    let mut disk = Disk::new(64);
    let mut file = DiskInode::new(DiskInodeType::File);
    let first = file.blocks_num_needed(1000);
    file.increase_size(1000, fresh_ids(first), &mut disk);
    let more = file.blocks_num_needed(20000);
    let second: Vec<u32> = (first + 1..=first + more).collect();
    file.increase_size(20000, second.clone(), &mut disk);
    let freed = file.clear_size(&disk);
    let mut all = fresh_ids(first);
    all.extend(second);
    assert_eq!(freed, all);
}

/// Reads are clamped at the file size; writes never extend the file.
#[test]
fn read_write_clamped_at_size() {
    let mut disk = Disk::new(64);
    let mut file = DiskInode::new(DiskInodeType::File);
    file.increase_size(10, fresh_ids(1), &mut disk);
    let w = file.write_at(4, &vec![9u8; 100], &mut disk);
    assert_eq!(w, 6); // bytes 4..10 only
    let mut buf = vec![0u8; 100];
    let r = file.read_at(4, &mut buf, &disk);
    assert_eq!(r, 6);
    assert_eq!(&buf[..6], &[9u8; 6]);
    // reading at or past the size yields nothing
    let r2 = file.read_at(10, &mut buf, &disk);
    assert_eq!(r2, 0);
    let w2 = file.write_at(10, &vec![1u8; 4], &mut disk);
    assert_eq!(w2, 0);
}

/// A partial overwrite leaves the rest of the file alone.
#[test]
fn partial_overwrite_keeps_rest() {
    let mut disk = Disk::new(64);
    let mut file = DiskInode::new(DiskInodeType::File);
    file.increase_size(1024, fresh_ids(2), &mut disk);
    let base = pattern(1024);
    file.write_at(0, &base, &mut disk);
    file.write_at(500, &vec![0xAAu8; 24], &mut disk);
    let mut buf = vec![0u8; 1024];
    file.read_at(0, &mut buf, &disk);
    assert_eq!(&buf[..500], &base[..500]);
    assert_eq!(&buf[500..524], &[0xAAu8; 24]);
    assert_eq!(&buf[524..], &base[524..]);
}

/// The super block is valid exactly after initialization.
#[test]
fn super_block_magic() {
    let mut sb = SuperBlock::empty();
    assert!(!sb.is_valid());
    sb.initialize(100, 1, 4, 1, 90);
    assert!(sb.is_valid());
    assert_eq!(sb.total_blocks, 100);
    assert_eq!(sb.inode_bitmap_blocks, 1);
    assert_eq!(sb.inode_area_blocks, 4);
    assert_eq!(sb.data_bitmap_blocks, 1);
    assert_eq!(sb.data_area_blocks, 90);
}

/// A directory entry serializes to 32 bytes and round-trips.
#[test]
fn dirent_round_trip() {
    let e = DirEntry::new(&b"initproc".to_vec(), 123456);
    let bytes = e.to_bytes();
    assert_eq!(bytes.len(), 32);
    let back = DirEntry::from_bytes(&bytes);
    assert_eq!(back.name(), b"initproc".to_vec());
    assert_eq!(back.inode_number(), 123456);

    let empty = DirEntry::empty();
    assert_eq!(empty.name(), Vec::<u8>::new());
    assert_eq!(empty.inode_number(), 0);
}

/// The per-size block accounting matches the layout's boundaries.
#[test]
fn total_blocks_at_boundaries() {
    assert_eq!(DiskInode::total_blocks(0), 0);
    assert_eq!(DiskInode::total_blocks(1), 1);
    assert_eq!(DiskInode::total_blocks(28 * 512), 28);
    assert_eq!(DiskInode::total_blocks(28 * 512 + 1), 30);
    assert_eq!(DiskInode::total_blocks((28 + 128) * 512), 157);
    assert_eq!(DiskInode::total_blocks((28 + 128) * 512 + 1), 160);
    assert_eq!(DiskInode::total_blocks((28 + 128 + 256) * 512), 412 + 1 + 1 + 2);
}
