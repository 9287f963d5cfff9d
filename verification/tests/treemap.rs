use mathom::entry::{EntryBatch, EntryFlags, FileEntry};
use mathom::tree::{Tree, TreeBuilder};
use mathom::treemap::{effective_size, fill_visible};

const DIR: EntryFlags = EntryFlags(1);
const FILE: EntryFlags = EntryFlags(0);

fn entry(id: u32, parent: u32, flags: EntryFlags, size: u64) -> FileEntry {
    FileEntry {
        path_id: id,
        parent_id: parent,
        name_off: 0,
        name_len: 0,
        flags,
        size,
        allocated_size: size,
        mtime: 0,
    }
}

fn flat_tree(files: &[(&str, u64)]) -> Tree {
    let mut b = EntryBatch::default();
    b.push("root", entry(0, 0, DIR, 0));
    for (i, &(name, size)) in files.iter().enumerate() {
        b.push(name, entry(i as u32 + 1, 0, FILE, size));
    }
    let mut builder = TreeBuilder::new();
    builder.add_batch(&b);
    builder.finish()
}

#[test]
fn visible_sizes_stay_zero_under_a_system_directory() {
    // root / sysdir(SYSTEM) { deep { g 9999 } } + keep 100
    let sys_dir = DIR.union(EntryFlags::system());
    let mut b = EntryBatch::default();
    b.push("root", entry(0, 0, DIR, 0));
    b.push("sysdir", entry(1, 0, sys_dir, 0));
    b.push("deep", entry(2, 1, DIR, 0));
    b.push("g", entry(3, 2, FILE, 9999));
    b.push("keep", entry(4, 0, FILE, 100));
    let mut builder = TreeBuilder::new();
    builder.add_batch(&b);
    let tree = builder.finish();

    let mut visible = vec![0u64; tree.len()];
    fill_visible(&tree, 0, &mut visible);

    assert_eq!(visible[0], 100, "root counts only the non-system file");
    assert_eq!(visible[1], 0);
    assert_eq!(visible[2], 0, "descendants of a system dir stay zero");
    assert_eq!(visible[3], 0);
    assert_eq!(visible[4], 100);
}

#[test]
fn visible_sizes_never_write_outside_the_traversal_subtree() {
    // root { a { f 70 } + b 900 }, filled from `a`
    let mut b = EntryBatch::default();
    b.push("root", entry(0, 0, DIR, 0));
    b.push("a", entry(1, 0, DIR, 0));
    b.push("f", entry(2, 1, FILE, 70));
    b.push("b", entry(3, 0, FILE, 900));
    let mut builder = TreeBuilder::new();
    builder.add_batch(&b);
    let tree = builder.finish();

    let mut visible = vec![0u64; tree.len()];
    fill_visible(&tree, 1, &mut visible);

    assert_eq!(visible[1], 70, "the traversal root gets its nested total");
    assert_eq!(visible[2], 70);
    assert_eq!(visible[0], 0, "the parent outside the subtree is untouched");
    assert_eq!(visible[3], 0);
}

#[test]
fn a_file_as_traversal_root_keeps_its_own_size() {
    let tree = flat_tree(&[("a.txt", 42)]);

    let mut visible = vec![0u64; tree.len()];
    fill_visible(&tree, 1, &mut visible);

    assert_eq!(visible[1], 42);
    assert_eq!(visible[0], 0);
}

#[test]
fn visible_sizes_saturate_and_add_onto_prior_values() {
    let tree = flat_tree(&[("huge", u64::MAX - 5), ("more", 10)]);
    let mut visible = vec![0u64; tree.len()];
    fill_visible(&tree, 0, &mut visible);
    assert_eq!(visible[0], u64::MAX);
    assert_eq!(visible[1], u64::MAX - 5);
    assert_eq!(visible[2], 10);

    let small = flat_tree(&[("x", 3)]);
    let mut v = vec![7u64, 0];
    fill_visible(&small, 0, &mut v);
    assert_eq!(v, vec![10, 3], "a directory adds onto what its slot held");
}

#[test]
fn effective_size_reads_the_filter_or_the_node() {
    let tree = flat_tree(&[("a", 5), ("b", 6)]);
    let v = vec![1u64, 2];
    assert_eq!(effective_size(&tree, 1, Some(&v)), 2);
    assert_eq!(effective_size(&tree, 2, Some(&v)), 0, "past the snapshot reads as 0");
    assert_eq!(effective_size(&tree, 2, None), 6);
}
