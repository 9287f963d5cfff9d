use mathom::entry::EntryFlags;
use mathom::walker::{allocation_flags, listing_entry};

#[test]
fn allocation_flags_map_the_documented_attribute_bits() {
    assert_eq!(allocation_flags(0), EntryFlags(0));
    assert_eq!(allocation_flags(0x0200), EntryFlags::sparse());
    assert_eq!(allocation_flags(0x0800), EntryFlags::compressed());
    assert_eq!(allocation_flags(0x1000), EntryFlags::placeholder()); // OFFLINE
    assert_eq!(allocation_flags(0x4_0000), EntryFlags::placeholder()); // RECALL_ON_OPEN
    assert_eq!(allocation_flags(0x40_0000), EntryFlags::placeholder()); // RECALL_ON_DATA_ACCESS
    // A dehydrated OneDrive file carries several at once.
    assert_eq!(
        allocation_flags(0x0200 | 0x1000 | 0x40_0000),
        EntryFlags::sparse().union(EntryFlags::placeholder())
    );
    // Unrelated attributes (readonly, hidden, system, directory) map to nothing.
    assert_eq!(allocation_flags(0x1 | 0x2 | 0x4 | 0x10), EntryFlags(0));
}

#[test]
fn listing_entries_follow_the_item_kind() {
    let d = listing_entry(7, 3, true, false, 4096, 0, false, None, 5);
    assert_eq!(d.flags, EntryFlags::dir());
    assert_eq!((d.path_id, d.parent_id, d.size, d.allocated_size, d.mtime), (7, 3, 0, 0, 5));

    let l = listing_entry(8, 3, false, true, 99, 0, true, None, 0);
    assert_eq!(l.flags, EntryFlags::reparse().union(EntryFlags::system()));
    assert_eq!((l.size, l.allocated_size), (0, 0));

    let plain = listing_entry(9, 3, false, false, 1234, 0x20, false, Some(1), 0);
    assert_eq!(plain.flags, EntryFlags(0));
    assert_eq!((plain.size, plain.allocated_size), (1234, 1234));

    let sparse = listing_entry(10, 3, false, false, 1 << 30, 0x0200, false, Some(4096), 0);
    assert_eq!(sparse.flags, EntryFlags::sparse());
    assert_eq!((sparse.size, sparse.allocated_size), (1 << 30, 4096));

    let unknown = listing_entry(11, 3, false, false, 500, 0x1000, false, None, 0);
    assert_eq!(unknown.flags, EntryFlags::placeholder());
    assert_eq!(unknown.allocated_size, 500);
}
