//! The generic directory walker's per-entry rules: which flags a listed item
//! carries and what size it reports. The walk itself (directory reads on a
//! thread pool) runs in the application.

use vstd::prelude::*;

use crate::entry::{EntryFlags, FileEntry};

verus! {

/// The portable scanner that walks the directory tree.
#[derive(Clone, Copy, Debug, Default)]
pub struct GenericScanner;

pub const FILE_ATTRIBUTE_SPARSE_FILE: u32 = 0x0200;

pub const FILE_ATTRIBUTE_COMPRESSED: u32 = 0x0800;

pub const FILE_ATTRIBUTE_OFFLINE: u32 = 0x1000;

pub const FILE_ATTRIBUTE_RECALL_ON_OPEN: u32 = 0x4_0000;

pub const FILE_ATTRIBUTE_RECALL_ON_DATA_ACCESS: u32 = 0x40_0000;

/// The entry flags the file attributes `attrs` stand for: `SPARSE`,
/// `COMPRESSED`, and `PLACEHOLDER` for a file whose data is offline or
/// recalled on access.
pub open spec fn alloc_bits(attrs: u32) -> u16 {
    let f1: u16 = if attrs & FILE_ATTRIBUTE_SPARSE_FILE != 0 { 0u16 | 16u16 } else { 0u16 };
    let f2: u16 = if attrs & FILE_ATTRIBUTE_COMPRESSED != 0 { f1 | 8u16 } else { f1 };
    if attrs & (FILE_ATTRIBUTE_OFFLINE | FILE_ATTRIBUTE_RECALL_ON_OPEN | FILE_ATTRIBUTE_RECALL_ON_DATA_ACCESS) != 0 {
        f2 | 32u16
    } else {
        f2
    }
}

/// Maps the file attributes that change how much a file occupies on disk
/// to entry flags.
pub fn allocation_flags(attrs: u32) -> (f: EntryFlags)
    ensures
        f.0 == alloc_bits(attrs),
{
    let mut f = EntryFlags(0);
    if attrs & FILE_ATTRIBUTE_SPARSE_FILE != 0 {
        f.insert(EntryFlags::sparse());
    }
    if attrs & FILE_ATTRIBUTE_COMPRESSED != 0 {
        f.insert(EntryFlags::compressed());
    }
    if attrs & (FILE_ATTRIBUTE_OFFLINE | FILE_ATTRIBUTE_RECALL_ON_OPEN | FILE_ATTRIBUTE_RECALL_ON_DATA_ACCESS) != 0 {
        f.insert(EntryFlags::placeholder());
    }
    f
}

/// The flags of a listed item: `DIR` for a directory, `REPARSE` for a
/// symbolic link, the allocation flags for any other file, and `SYSTEM` on
/// top when the item carries the system attribute.
pub open spec fn listing_flags(is_dir: bool, is_symlink: bool, attrs: u32, system: bool) -> u16 {
    let base: u16 = if is_dir {
        0u16 | 1u16
    } else if is_symlink {
        0u16 | 2u16
    } else if alloc_bits(attrs) == 0 {
        0u16
    } else {
        0u16 | alloc_bits(attrs)
    };
    if system { base | 128u16 } else { base }
}

/// The entry a directory listing item becomes. Directories and symbolic
/// links report no size. A file reports its length; when its attributes
/// mark it sparse, compressed or a placeholder it reports what it occupies
/// on disk (`on_disk`, or its length when that is unknown) as allocated,
/// else its length.
pub fn listing_entry(
    id: u32,
    parent: u32,
    is_dir: bool,
    is_symlink: bool,
    len: u64,
    attrs: u32,
    system: bool,
    on_disk: Option<u64>,
    mtime: i64,
) -> (e: FileEntry)
    ensures
        e.path_id == id,
        e.parent_id == parent,
        e.name_off == 0 && e.name_len == 0,
        e.flags.0 == listing_flags(is_dir, is_symlink, attrs, system),
        e.size == (if is_dir || is_symlink { 0 } else { len }),
        e.allocated_size == (if is_dir || is_symlink {
            0
        } else if alloc_bits(attrs) == 0 {
            len
        } else {
            match on_disk {
                Some(a) => a,
                None => len,
            }
        }),
        e.mtime == mtime,
{
    let mut flags = EntryFlags(0);
    let size;
    let mut allocated: u64 = 0;
    if is_dir {
        flags.insert(EntryFlags::dir());
        size = 0;
    } else if is_symlink {
        flags.insert(EntryFlags::reparse());
        size = 0;
    } else {
        size = len;
        let attr_flags = allocation_flags(attrs);
        allocated = if attr_flags.0 == 0 {
            size
        } else {
            flags = flags.union(attr_flags);
            match on_disk {
                Some(a) => a,
                None => size,
            }
        };
    }
    if system {
        flags.insert(EntryFlags::system());
    }
    FileEntry {
        path_id: id,
        parent_id: parent,
        name_off: 0,
        name_len: 0,
        flags,
        size,
        allocated_size: allocated,
        mtime,
    }
}

} // verus!
