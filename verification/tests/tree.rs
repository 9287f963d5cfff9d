use mathom::entry::{EntryBatch, EntryFlags, FileEntry};
use mathom::tree::{Node, NodeId, Removed, Tree, TreeBuilder};

fn entry(id: u32, parent: u32, flags: EntryFlags, size: u64) -> FileEntry {
    FileEntry {
        path_id: id,
        parent_id: parent,
        name_off: 0,
        name_len: 0,
        flags,
        size,
        allocated_size: size,
        mtime: 1_700_000_000,
    }
}

fn batch(items: &[(&str, FileEntry)]) -> EntryBatch {
    let mut b = EntryBatch::default();
    for (name, e) in items {
        b.push(name, *e);
    }
    b
}

const DIR: EntryFlags = EntryFlags(1);
const FILE: EntryFlags = EntryFlags(0);

/// root(0) / a(1) / sub(3); files: f1(2)=100 in a, f2(4)=7 in sub, f3(5)=1 in root
fn build_sample(batch_order: &[&[(&str, FileEntry)]]) -> Tree {
    let mut builder = TreeBuilder::new();
    for items in batch_order {
        builder.add_batch(&batch(items));
    }
    builder.finish()
}

fn sample_batches() -> Vec<Vec<(&'static str, FileEntry)>> {
    vec![
        vec![("root", entry(0, 0, DIR, 0))],
        vec![("a", entry(1, 0, DIR, 0)), ("f3", entry(5, 0, FILE, 1))],
        vec![("f1", entry(2, 1, FILE, 100)), ("sub", entry(3, 1, DIR, 0))],
        vec![("f2", entry(4, 3, FILE, 7))],
    ]
}

#[test]
fn aggregates_propagate_to_all_ancestors() {
    let batches = sample_batches();
    let refs: Vec<&[(&str, FileEntry)]> = batches.iter().map(|b| b.as_slice()).collect();
    let tree = build_sample(&refs);

    assert_eq!(tree.len(), 6);
    assert_eq!(tree.node(0).size, 108);
    assert_eq!(tree.node(0).items, 5);
    assert_eq!(tree.node(1).size, 107);
    assert_eq!(tree.node(1).items, 3);
    assert_eq!(tree.node(3).size, 7);
    assert_eq!(tree.node(3).items, 1);
    assert_eq!(tree.node(2).size, 100);
    assert_eq!(tree.node(2).items, 0);
}

#[test]
fn sibling_batches_may_arrive_in_any_order() {
    let mut builder = TreeBuilder::new();
    builder.add_batch(&batch(&[("root", entry(0, 0, DIR, 0))]));
    builder.add_batch(&batch(&[
        ("a", entry(1, 0, DIR, 0)),
        ("b", entry(2, 0, DIR, 0)),
    ]));
    builder.add_batch(&batch(&[("fb", entry(4, 2, FILE, 5))]));
    builder.add_batch(&batch(&[("fa", entry(3, 1, FILE, 9))]));
    let tree = builder.finish();

    assert_eq!(tree.node(0).size, 14);
    assert_eq!(tree.node(0).items, 4);
    assert_eq!(tree.node(1).size, 9);
    assert_eq!(tree.node(2).size, 5);
}

#[test]
fn children_iterates_all_direct_children() {
    let batches = sample_batches();
    let refs: Vec<&[(&str, FileEntry)]> = batches.iter().map(|b| b.as_slice()).collect();
    let tree = build_sample(&refs);

    let mut kids: Vec<&str> = child_ids(&tree, 0).into_iter().map(|c| tree.name(c)).collect();
    kids.sort();
    assert_eq!(kids, ["a", "f3"]);

    let sub_kids: Vec<&str> = child_ids(&tree, 3).into_iter().map(|c| tree.name(c)).collect();
    assert_eq!(sub_kids, ["f2"]);
}

#[test]
fn path_walks_up_to_root() {
    let batches = sample_batches();
    let refs: Vec<&[(&str, FileEntry)]> = batches.iter().map(|b| b.as_slice()).collect();
    let tree = build_sample(&refs);

    let sep = std::path::MAIN_SEPARATOR;
    assert_eq!(tree.path(4), format!("root{sep}a{sep}sub{sep}f2"));
    assert_eq!(tree.path(0), "root");
}

#[test]
fn mark_error_sets_flag() {
    let mut builder = TreeBuilder::new();
    builder.add_batch(&batch(&[("root", entry(0, 0, DIR, 0))]));
    builder.add_batch(&batch(&[("locked", entry(1, 0, DIR, 0))]));
    builder.mark_error(1);
    let tree = builder.finish();
    assert!(tree.node(1).flags.contains(EntryFlags::error()));
    assert!(tree.node(1).is_dir());
}

#[test]
fn node_struct_stays_48_bytes() {
    assert_eq!(std::mem::size_of::<Node>(), 48);
}

fn sample_tree() -> Tree {
    let batches = sample_batches();
    let refs: Vec<&[(&str, FileEntry)]> = batches.iter().map(|b| b.as_slice()).collect();
    build_sample(&refs)
}

fn child_ids(tree: &Tree, id: NodeId) -> Vec<NodeId> {
    let mut it = tree.children(id);
    let mut out = Vec::new();
    while let Some(c) = it.next() {
        out.push(c);
    }
    out
}

#[test]
fn remove_subtree_frees_dir_and_updates_ancestors() {
    let mut tree = sample_tree();
    assert_eq!(tree.node(1).size, 107);

    let removed = tree.remove_subtree(1).unwrap();
    assert_eq!(
        removed,
        Removed {
            size: 107,
            allocated: 107,
            files: 2,
            dirs: 2,
        }
    );
    assert_eq!(removed.nodes(), 4);

    assert_eq!(tree.node(0).size, 1);
    assert_eq!(tree.node(0).items, 1);
    assert_eq!(child_ids(&tree, 0), vec![5]);

    assert!(tree.node(1).parent().is_none());
    assert!(!tree.node(1).is_dir());
}

#[test]
fn remove_leaf_updates_ancestors_and_relinks_head() {
    let mut tree = sample_tree();
    let removed = tree.remove_subtree(5).unwrap();
    assert_eq!(
        removed,
        Removed {
            size: 1,
            allocated: 1,
            files: 1,
            dirs: 0,
        }
    );
    assert_eq!(tree.node(0).size, 107);
    assert_eq!(tree.node(0).items, 4);
    assert_eq!(child_ids(&tree, 0), vec![1]);
}

#[test]
fn remove_middle_dir_updates_every_ancestor() {
    let mut tree = sample_tree();
    let removed = tree.remove_subtree(3).unwrap();
    assert_eq!(removed.nodes(), 2);
    assert_eq!(removed.size, 7);

    assert_eq!(tree.node(1).size, 100);
    assert_eq!(tree.node(1).items, 1);
    assert_eq!(tree.node(0).size, 101);
    assert_eq!(tree.node(0).items, 3);
    assert_eq!(child_ids(&tree, 1), vec![2]);
}

#[test]
fn remove_rejects_root_and_unknown_ids() {
    let mut tree = sample_tree();
    assert_eq!(tree.remove_subtree(0), None);
    assert_eq!(tree.remove_subtree(99), None);
    assert_eq!(tree.node(0).size, 108);
    assert_eq!(tree.node(0).items, 5);
}

#[test]
fn remove_twice_does_not_double_subtract() {
    let mut tree = sample_tree();
    assert!(tree.remove_subtree(3).is_some());
    let root_size = tree.node(0).size;
    assert_eq!(tree.remove_subtree(3), None);
    assert_eq!(tree.node(0).size, root_size);
}

#[test]
fn is_live_rejects_removed_subtree_and_out_of_range() {
    let mut tree = sample_tree();
    tree.remove_subtree(1).unwrap();

    assert!(!tree.is_live(1));
    assert!(!tree.is_live(2));
    assert!(!tree.is_live(3));
    assert!(!tree.is_live(99));
    assert!(tree.is_live(0));
    assert!(tree.is_live(5));
}

#[test]
fn is_live_accepts_childless_root() {
    let mut builder = TreeBuilder::new();
    builder.add_batch(&batch(&[("root", entry(0, 0, DIR, 0))]));
    let tree = builder.finish();
    assert!(tree.is_live(0));
    assert!(!tree.is_live(1));
}

#[test]
fn is_live_rejects_never_filled_gap_slots() {
    let mut builder = TreeBuilder::new();
    builder.add_batch(&batch(&[("root", entry(0, 0, DIR, 0))]));
    builder.add_batch(&batch(&[("f", entry(2, 0, FILE, 5))]));
    let tree = builder.finish();
    assert!(!tree.is_live(1));
    assert!(tree.is_live(2));
}
