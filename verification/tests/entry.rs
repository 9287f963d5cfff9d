use mathom::entry::{EntryBatch, EntryFlags, FileEntry};

fn entry(id: u32) -> FileEntry {
    FileEntry {
        path_id: id,
        parent_id: 0,
        name_off: 0,
        name_len: 0,
        flags: EntryFlags(0),
        size: 0,
        allocated_size: 0,
        mtime: 0,
    }
}

#[test]
fn earlier_names_survive_later_pushes() {
    let mut b = EntryBatch::with_capacity(0, 0);
    b.push("alpha", entry(0));
    let first = b.entries[0];
    for (i, name) in ["β", "", "日本語.txt", "gamma"].iter().enumerate() {
        b.push(name, entry(i as u32 + 1));
        assert_eq!(b.name_of(&first), "alpha");
    }
    assert_eq!(b.name_of(&b.entries[3]), "日本語.txt");
    assert_eq!(b.name_of(&b.entries[2]), "");
    assert!(b.names_ok());
}
