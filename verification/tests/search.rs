use mathom::entry::{EntryBatch, EntryFlags, FileEntry};
use mathom::search::{SearchQuery, search};
use mathom::tree::{Tree, TreeBuilder};

fn entry(id: u32, parent: u32, flags: EntryFlags, size: u64) -> FileEntry {
    FileEntry {
        path_id: id,
        parent_id: parent,
        name_off: 0,
        name_len: 0,
        flags,
        size,
        allocated_size: size,
        mtime: 1_700_000_000,
    }
}

const DIR: EntryFlags = EntryFlags(1);
const FILE: EntryFlags = EntryFlags(0);

/// root(0)
/// ├─ docs(1)/          report.pdf(2)=100, Draft-REPORT.txt(3)=50, notes(4)=8
/// ├─ media(5)/         movie.mkv(6)=500, clip.mp4(7)=200
/// ├─ sys(8)/ SYSTEM    pagefile.sys(9)=999
/// └─ archive.pdf(10)/  big.bin(11)=300
fn sample() -> Tree {
    let mut b = TreeBuilder::new();
    let mut batch = EntryBatch::default();
    batch.push("root", entry(0, 0, DIR, 0));
    b.add_batch(&batch);
    let mut batch = EntryBatch::default();
    batch.push("docs", entry(1, 0, DIR, 0));
    batch.push("media", entry(5, 0, DIR, 0));
    batch.push(
        "sys",
        entry(8, 0, EntryFlags::dir().union(EntryFlags::system()), 0),
    );
    batch.push("archive.pdf", entry(10, 0, DIR, 0));
    b.add_batch(&batch);
    let mut batch = EntryBatch::default();
    batch.push("report.pdf", entry(2, 1, FILE, 100));
    batch.push("Draft-REPORT.txt", entry(3, 1, FILE, 50));
    batch.push("notes", entry(4, 1, FILE, 8));
    batch.push("movie.mkv", entry(6, 5, FILE, 500));
    batch.push("clip.mp4", entry(7, 5, FILE, 200));
    batch.push("pagefile.sys", entry(9, 8, FILE, 999));
    batch.push("big.bin", entry(11, 10, FILE, 300));
    b.add_batch(&batch);
    b.finish()
}

#[test]
fn parse_splits_terms_ext_and_min_size() {
    let q = SearchQuery::parse("Report ext:.PDF >100mb");
    assert_eq!(q.name_terms, ["report"]);
    assert_eq!(q.ext.as_deref(), Some("pdf"));
    assert_eq!(q.min_size, 100 * 1024 * 1024);
}

#[test]
fn parse_size_units_and_fallback() {
    assert_eq!(SearchQuery::parse(">150").min_size, 150);
    assert_eq!(SearchQuery::parse(">=1.5kb").min_size, 1536);
    assert_eq!(SearchQuery::parse(">2g").min_size, 2 * 1024 * 1024 * 1024);
    // Not a size → a name term, never an error.
    let q = SearchQuery::parse(">abc");
    assert_eq!(q.min_size, 0);
    assert_eq!(q.name_terms, [">abc"]);
}

#[test]
fn empty_query_matches_nothing() {
    let tree = sample();
    assert!(SearchQuery::parse("   ").is_empty());
    let r = search(&tree, &SearchQuery::parse(""), 10, false);
    assert!(r.ids.is_empty());
    assert_eq!(r.total_matches, 0);
}

#[test]
fn name_match_is_case_insensitive_over_files_and_dirs() {
    let tree = sample();
    let r = search(&tree, &SearchQuery::parse("report"), 10, false);
    assert_eq!(r.ids, [2, 3]); // report.pdf(100) before Draft-REPORT.txt(50)
    assert_eq!(r.total_matches, 2);
    assert_eq!(
        search(&tree, &SearchQuery::parse("docs"), 10, false).ids,
        [1]
    );
}

#[test]
fn multiple_terms_all_must_match() {
    let tree = sample();
    let r = search(&tree, &SearchQuery::parse("draft report"), 10, false);
    assert_eq!(r.ids, [3]);
}

#[test]
fn ext_filter_matches_files_only() {
    let tree = sample();
    let r = search(&tree, &SearchQuery::parse("ext:pdf"), 10, false);
    assert_eq!(r.ids, [2]); // archive.pdf is a directory — excluded
}

#[test]
fn min_size_includes_directories_but_never_the_root() {
    let tree = sample();
    let r = search(&tree, &SearchQuery::parse(">400"), 10, false);
    // sys(999), pagefile.sys(999), media(700), movie.mkv(500);
    // root (2157) is not a hit.
    assert_eq!(r.ids, [8, 9, 5, 6]);
}

#[test]
fn search_hide_system_prunes_system_subtrees() {
    let tree = sample();
    let r = search(&tree, &SearchQuery::parse(">400"), 10, true);
    assert_eq!(r.ids, [5, 6]);
    assert_eq!(r.total_matches, 2);
}

#[test]
fn cap_bounds_results_but_not_the_count() {
    let tree = sample();
    let r = search(&tree, &SearchQuery::parse(">400"), 2, false);
    assert_eq!(r.ids, [8, 9]);
    assert_eq!(r.total_matches, 4);
}

#[test]
fn combined_filters_intersect() {
    let tree = sample();
    let r = search(&tree, &SearchQuery::parse("report ext:pdf >60"), 10, false);
    assert_eq!(r.ids, [2]);
}

#[test]
fn unicode_terms_are_lowercased_and_size_fractions_round_down() {
    let q = SearchQuery::parse("ÉTÉ\u{3000}>0.5k  >=2.25mb");
    assert_eq!(q.name_terms, ["été"]);
    assert_eq!(q.min_size, 2_359_296); // the last size filter wins
    assert_eq!(SearchQuery::parse(">0.1k").min_size, 102);
    assert_eq!(SearchQuery::parse(">.5").min_size, 0);
    assert_eq!(SearchQuery::parse(">5.").min_size, 5);
}

#[test]
fn malformed_size_tokens_become_name_terms() {
    for tok in [">1.2.3", ">.", ">", ">=", ">5kbb", ">5x"] {
        let q = SearchQuery::parse(tok);
        assert_eq!(q.min_size, 0, "{tok}");
        assert_eq!(q.name_terms.len(), 1, "{tok}");
    }
}

#[test]
fn ext_with_several_dots_and_case() {
    let q = SearchQuery::parse("ext:..TXT");
    assert_eq!(q.ext.as_deref(), Some("txt"));
    assert!(q.name_terms.is_empty());
    assert!(!q.is_empty());
}

#[test]
fn huge_sizes_saturate() {
    assert_eq!(SearchQuery::parse(">99999999999999999999tb").min_size, u64::MAX);
    assert_eq!(SearchQuery::parse(">18446744073709551615").min_size, u64::MAX);
}
