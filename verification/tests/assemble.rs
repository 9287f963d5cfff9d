use mathom::entry::EntryFlags;
use mathom::ntfs::ParseError;
use mathom::ntfs::assemble::{AssembleStats, Assembler, assemble};
use mathom::ntfs::fixture::{RecordBuilder, image, root_dir};
use mathom::ntfs::pipeline::{Sweep, Table};
use mathom::tree::TreeBuilder;

const FT_2020: u64 = 132_223_104_000_000_000;

/// A little volume exercising the tree-shaping rules end to end:
///
/// ```text
/// C:\                       (record 5)
/// ├── docs\                 (16)
/// │   ├── a.txt   1000 B    (17)
/// │   └── link.bin 512 B    (20, hardlinked here first + into root)
/// ├── big.mkv    2 GiB      (18, $DATA via extension record 19)
/// ├── junction\             (21, mount point — leaf, never descended)
/// ├── orphan.txt            (22, parent is a *file* → invalid)
/// ├── stale.txt             (23, parent seq mismatch → invalid)
/// └── free slot             (24, deleted record)
/// ```
fn little_volume() -> Vec<u8> {
    image(
        1024,
        vec![
            (5, root_dir()),
            (
                16,
                RecordBuilder::dir()
                    .std_info(0, FT_2020)
                    .name(5, 5, 1, "docs"),
            ),
            (
                17,
                RecordBuilder::file()
                    .std_info(0, FT_2020)
                    .name(16, 1, 1, "a.txt")
                    .data_nonresident(1000, 4096),
            ),
            (
                18,
                RecordBuilder::file()
                    .seq(2)
                    .attribute_list_stub()
                    .name(5, 5, 1, "big.mkv"),
            ),
            (
                19,
                RecordBuilder::file()
                    .extension_of(18, 2)
                    .data_nonresident(2 << 30, 2 << 30),
            ),
            (
                20,
                RecordBuilder::file()
                    .name(16, 1, 1, "link.bin")
                    .name(5, 5, 1, "link-alias.bin")
                    .data_nonresident(512, 4096),
            ),
            (
                21,
                RecordBuilder::dir()
                    .name(5, 5, 1, "junction")
                    .reparse(0xA000_0003),
            ),
            (
                22,
                RecordBuilder::file()
                    .name(17, 1, 1, "orphan.txt") // parent is a file
                    .data_nonresident(64, 4096),
            ),
            (
                23,
                RecordBuilder::file()
                    .name(16, 9, 1, "stale.txt") // seq 9 ≠ actual 1
                    .data_nonresident(64, 4096),
            ),
            (24, RecordBuilder::free()),
        ],
    )
}

fn sweep(mut img: Vec<u8>) -> Table {
    let total = img.len() / 1024;
    let mut s = Sweep::new(total, 1024);
    s.consume(0, &mut img);
    s.finish()
}

fn build_tree(table: &Table, subtree: &[&str], root_path: &str) -> (TreeBuilder, AssembleStats) {
    let mut builder = TreeBuilder::new();
    let stats = assemble(table, subtree, root_path, 3, |b| {
        builder.add_batch(&b);
        true
    })
    .expect("assemble should succeed");
    (builder, stats)
}

fn child_named(builder: &TreeBuilder, dir: u32, name: &str) -> Option<u32> {
    let tree = builder.tree();
    let mut it = tree.children(dir);
    while let Some(c) = it.next() {
        if tree.name(c) == name {
            return Some(c);
        }
    }
    None
}

#[test]
fn full_volume_tree_shape_and_sizes() {
    let table = sweep(little_volume());
    let (builder, stats) = build_tree(&table, &[], "C:\\");
    let tree = builder.tree();

    assert_eq!(stats.files, 4);
    assert_eq!(stats.dirs, 2); // root, docs
    assert_eq!(stats.bytes, 1000 + (2u64 << 30) + 512);
    assert_eq!(stats.orphans, 2, "bad-parent + stale-seq records");
    assert!(!stats.cancelled);

    assert_eq!(tree.name(0), "C:\\");
    assert_eq!(tree.node(0).size, 1000 + (2u64 << 30) + 512);

    let docs = child_named(&builder, 0, "docs").unwrap();
    assert_eq!(tree.node(docs).size, 1000 + 512);
    assert!(child_named(&builder, docs, "a.txt").is_some());

    let link = child_named(&builder, docs, "link.bin").unwrap();
    assert!(tree.node(link).flags.contains(EntryFlags::hardlink()));
    assert!(child_named(&builder, 0, "link-alias.bin").is_none());

    let big = child_named(&builder, 0, "big.mkv").unwrap();
    assert_eq!(tree.node(big).size, 2 << 30);
    let junction = child_named(&builder, 0, "junction").unwrap();
    assert!(tree.node(junction).flags.contains(EntryFlags::reparse()));
    assert!(!tree.node(junction).is_dir());
    assert_eq!(tree.node(junction).size, 0);

    assert!(child_named(&builder, 0, "orphan.txt").is_none());
    assert!(child_named(&builder, docs, "stale.txt").is_none());
}

#[test]
fn subtree_scan_resolves_case_insensitively() {
    let table = sweep(little_volume());
    let (builder, stats) = build_tree(&table, &["DOCS"], "C:\\docs");
    let tree = builder.tree();

    assert_eq!(tree.name(0), "C:\\docs");
    assert_eq!(stats.files, 2); // a.txt + link.bin
    assert_eq!(stats.dirs, 1);
    assert_eq!(tree.node(0).size, 1000 + 512);
    assert!(child_named(&builder, 0, "a.txt").is_some());
    assert!(child_named(&builder, 0, "big.mkv").is_none());
}

#[test]
fn unknown_subtree_is_an_error() {
    let table = sweep(little_volume());
    let err = assemble(&table, &["nope"], "C:\\nope", 64, |_| true).unwrap_err();
    assert_eq!(err, ParseError("scan root not found in $MFT"));
}

#[test]
fn junction_path_component_does_not_resolve() {
    let table = sweep(little_volume());
    assert!(assemble(&table, &["junction"], "C:\\junction", 64, |_| true).is_err());
}

#[test]
fn cancellation_stops_mid_emit() {
    let table = sweep(little_volume());
    let mut sent = 0;
    let stats = assemble(&table, &[], "C:\\", 1, |_| {
        sent += 1;
        sent < 2
    })
    .unwrap();
    assert!(stats.cancelled);
    assert!(sent <= 2);
}

#[test]
fn mtime_lands_on_entries() {
    let table = sweep(little_volume());
    let (builder, _) = build_tree(&table, &[], "C:\\");
    let tree = builder.tree();
    let docs = child_named(&builder, 0, "docs").unwrap();
    assert_eq!(tree.node(docs).mtime, 1_577_836_800); // 2020-01-01
}

#[test]
fn missing_root_record_is_an_error() {
    let img = image(1024, vec![(6, RecordBuilder::dir().name(5, 5, 1, "x"))]);
    let table = sweep(img);
    assert!(assemble(&table, &[], "C:\\", 64, |_| true).is_err());
}

#[test]
fn batches_go_out_root_first_then_breadth_first() {
    let table = sweep(little_volume());
    let mut a = Assembler::new(&table, &[], "C:\\", 2).unwrap();
    let root = a.next_batch().unwrap();
    assert_eq!(root.entries.len(), 1);
    assert_eq!(root.name_of(&root.entries[0]), "C:\\");
    let mut names = Vec::new();
    let mut parents = Vec::new();
    let mut ids = Vec::new();
    while let Some(b) = a.next_batch() {
        assert!(b.entries.len() <= 2);
        for e in &b.entries {
            names.push(b.name_of(e).to_string());
            parents.push(e.parent_id);
            ids.push(e.path_id);
        }
    }
    // Root's children in record order, then docs' children.
    assert_eq!(names, vec!["docs", "big.mkv", "junction", "a.txt", "link.bin"]);
    assert_eq!(parents, vec![0, 0, 0, 1, 1]);
    assert_eq!(ids, vec![1, 2, 3, 4, 5]);
    assert!(a.next_batch().is_none());
    let stats = a.stats(false);
    assert_eq!(stats.orphans, 2);
    assert_eq!(stats.dirs, 2);
}

#[test]
fn cancelled_before_the_end_reports_no_orphans() {
    let table = sweep(little_volume());
    let mut a = Assembler::new(&table, &[], "C:\\", 2).unwrap();
    assert!(a.next_batch().is_some());
    let b = a.next_batch().unwrap();
    assert_eq!(b.entries.len(), 2);
    let stats = a.stats(true);
    assert!(stats.cancelled);
    assert_eq!(stats.orphans, 0);
    assert_eq!(stats.dirs, 2);
    assert_eq!(stats.files, 1);
    assert_eq!(stats.bytes, 2 << 30);
}
