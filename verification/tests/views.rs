use mathom::entry::{EntryBatch, EntryFlags, FileEntry};
use mathom::search::{SearchQuery, search};
use mathom::session::ScanState;
use mathom::stats::type_breakdown;
use mathom::tree::{Tree, TreeBuilder};
use mathom::views::{
    ExportArgs, TEXT_EXPORT_CAP, ancestors, export_text_with, search_hits_with, type_rows,
};

fn entry(id: u32, parent: u32, flags: EntryFlags, size: u64) -> FileEntry {
    FileEntry {
        path_id: id,
        parent_id: parent,
        name_off: 0,
        name_len: 0,
        flags,
        size,
        allocated_size: size,
        mtime: 1_700_000_000,
    }
}

const DIR: EntryFlags = EntryFlags(1);
const FILE: EntryFlags = EntryFlags(0);

/// root(0)/docs(1)/{a.pdf(2)=100, deep(3)/b.txt(4)=7}; movie.mkv(5)=500
fn sample() -> Tree {
    let mut b = TreeBuilder::new();
    let mut batch = EntryBatch::default();
    batch.push("root", entry(0, 0, DIR, 0));
    b.add_batch(&batch);
    let mut batch = EntryBatch::default();
    batch.push("docs", entry(1, 0, DIR, 0));
    batch.push("movie.mkv", entry(5, 0, FILE, 500));
    b.add_batch(&batch);
    let mut batch = EntryBatch::default();
    batch.push("a.pdf", entry(2, 1, FILE, 100));
    batch.push("deep", entry(3, 1, DIR, 0));
    b.add_batch(&batch);
    let mut batch = EntryBatch::default();
    batch.push("b.txt", entry(4, 3, FILE, 7));
    b.add_batch(&batch);
    b.finish()
}

#[test]
fn ancestors_run_from_the_root_down() {
    let tree = sample();
    let trail = ancestors(&tree, 4).expect("live node");
    let ids: Vec<u32> = trail.iter().map(|c| c.id).collect();
    let names: Vec<&str> = trail.iter().map(|c| c.name.as_str()).collect();
    assert_eq!(ids, [0, 1, 3, 4]);
    assert_eq!(names, ["root", "docs", "deep", "b.txt"]);
}

#[test]
fn ancestors_of_the_root_are_the_root() {
    let tree = sample();
    let trail = ancestors(&tree, 0).expect("root is live");
    assert_eq!(trail.len(), 1);
    assert_eq!(trail[0].name, "root");
}

#[test]
fn ancestors_of_unknown_ids_are_none() {
    let tree = sample();
    assert!(ancestors(&tree, 99).is_none());
}

#[test]
fn search_hits_carry_names_sizes_and_paths() {
    let tree = sample();
    let res = search(&tree, &SearchQuery::parse("a"), 100, false);
    let dto = search_hits_with(&tree, &res, '/');
    assert_eq!(dto.total, res.total_matches);
    assert_eq!(dto.hits.len(), res.ids.len());
    let first = &dto.hits[0];
    assert_eq!(first.id, res.ids[0]);
    let pdf = dto.hits.iter().find(|h| h.name == "a.pdf").expect("a.pdf matches");
    assert_eq!(pdf.size, 100);
    assert!(!pdf.is_dir);
    assert_eq!(pdf.path, "root/docs/a.pdf");
}

#[test]
fn type_rows_keep_order_and_show_missing_extensions_as_empty() {
    let mut b = TreeBuilder::new();
    let mut batch = EntryBatch::default();
    batch.push("root", entry(0, 0, DIR, 0));
    b.add_batch(&batch);
    let mut batch = EntryBatch::default();
    batch.push("movie.mkv", entry(1, 0, FILE, 500));
    batch.push("README", entry(2, 0, FILE, 3));
    b.add_batch(&batch);
    let tree = b.finish();
    let bd = type_breakdown(&tree, 0, false);
    let rows = type_rows(&bd.types);
    assert_eq!(rows.len(), 2);
    assert_eq!(rows[0].ext, "mkv");
    assert_eq!(rows[0].category, 1);
    assert_eq!(rows[0].bytes, 500);
    assert_eq!(rows[0].files, 1);
    assert_eq!(rows[1].ext, "");
    assert_eq!(rows[1].category, 10);
    assert_eq!(rows[1].bytes, 3);
}

fn args() -> ExportArgs {
    ExportArgs {
        max_depth: Some(1),
        dirs_only: false,
        hide_system: false,
    }
}

#[test]
fn export_text_gives_rows_and_text() {
    let tree = sample();
    let e = export_text_with(&tree, ScanState::Done, 0, "csv", args(), '/').expect("allowed");
    assert_eq!(e.rows, 3);
    assert_eq!(
        e.text,
        "path,kind,size,allocated,modified,items\n\
         root,dir,607,607,2023-11-14T22:13:20Z,5\n\
         root/movie.mkv,file,500,500,2023-11-14T22:13:20Z,0\n\
         root/docs,dir,107,107,2023-11-14T22:13:20Z,3\n"
    );
}

#[test]
fn export_text_refusals() {
    let tree = sample();
    let busy = export_text_with(&tree, ScanState::Scanning, 0, "csv", args(), '/');
    assert_eq!(
        busy.err().as_deref(),
        Some("can't export while a scan is running — wait for it to finish")
    );
    let unknown = export_text_with(&tree, ScanState::Done, 42, "csv", args(), '/');
    assert_eq!(unknown.err().as_deref(), Some("unknown node"));
    let format = export_text_with(&tree, ScanState::Done, 0, "xml", args(), '/');
    assert_eq!(format.err().as_deref(), Some("unknown export format: xml"));
}

#[test]
fn export_text_json_stays_under_the_cap() {
    let tree = sample();
    let e = export_text_with(&tree, ScanState::Cancelled, 3, "json", args(), '\\').expect("allowed");
    assert_eq!(e.rows, 2);
    assert!(e.text.len() <= TEXT_EXPORT_CAP);
    assert!(e.text.contains("\"path\":\"deep\\\\b.txt\""));
}

#[test]
fn export_args_become_options() {
    let o = args().options();
    assert_eq!(o.max_depth, Some(1));
    assert!(!o.dirs_only);
    assert!(!o.hide_system);
}

#[test]
fn listing_sorts_rows_and_fills_their_fields() {
    let tree = sample();
    let l = mathom::views::dir_listing(&tree, 0, "size", true, false).expect("root is a dir");
    assert_eq!(l.id, 0);
    let names: Vec<&str> = l.rows.iter().map(|r| r.name.as_str()).collect();
    assert_eq!(names, ["movie.mkv", "docs"]);
    let docs = &l.rows[1];
    assert!(docs.is_dir && docs.has_children);
    assert_eq!((docs.size, docs.items), (107, 3));
    let by_name = mathom::views::dir_listing(&tree, 1, "name", false, false).expect("docs is a dir");
    let names: Vec<&str> = by_name.rows.iter().map(|r| r.name.as_str()).collect();
    assert_eq!(names, ["a.pdf", "deep"]);
}

#[test]
fn listing_refuses_files_and_unknown_ids_and_hides_system() {
    let tree = sample();
    assert!(mathom::views::dir_listing(&tree, 5, "size", false, false).is_none());
    assert!(mathom::views::dir_listing(&tree, 77, "size", false, false).is_none());
    let mut b = TreeBuilder::new();
    let mut batch = EntryBatch::default();
    batch.push("root", entry(0, 0, DIR, 0));
    b.add_batch(&batch);
    let mut batch = EntryBatch::default();
    batch.push("pagefile.sys", entry(1, 0, EntryFlags::system(), 9));
    batch.push("Zed", entry(2, 0, FILE, 1));
    batch.push("alpha", entry(3, 0, FILE, 1));
    b.add_batch(&batch);
    let t = b.finish();
    let l = mathom::views::dir_listing(&t, 0, "name", false, true).expect("root");
    let names: Vec<&str> = l.rows.iter().map(|r| r.name.as_str()).collect();
    assert_eq!(names, ["alpha", "Zed"]);
    assert_eq!(mathom::views::dir_listing(&t, 0, "name", false, false).expect("root").rows.len(), 3);
}
