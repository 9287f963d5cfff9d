use mathom::entry::{EntryBatch, EntryFlags, FileEntry};
use mathom::export::{
    ExportOptions, csv_field, json_escape, modified, write_csv, write_csv_with, write_json,
    write_json_with,
};
use mathom::tree::{Tree, TreeBuilder};

fn entry(id: u32, parent: u32, flags: EntryFlags, size: u64) -> FileEntry {
    FileEntry {
        path_id: id,
        parent_id: parent,
        name_off: 0,
        name_len: 0,
        flags,
        size,
        allocated_size: size,
        mtime: 1_700_000_000,
    }
}

const DIR: EntryFlags = EntryFlags(1);
const FILE: EntryFlags = EntryFlags(0);

/// root(0)/docs(1): a.pdf(2)=100, b.PDF(3)=50, notes(4)=8;
/// media(5): movie.mkv(6)=500; sys(7)[SYSTEM]: pagefile.sys(8)=999; raw.bin(9)=30
fn sample() -> Tree {
    let mut b = TreeBuilder::new();
    let mut batch = EntryBatch::default();
    batch.push("root", entry(0, 0, DIR, 0));
    b.add_batch(&batch);
    let mut batch = EntryBatch::default();
    batch.push("docs", entry(1, 0, DIR, 0));
    batch.push("media", entry(5, 0, DIR, 0));
    batch.push(
        "sys",
        entry(7, 0, EntryFlags::dir().union(EntryFlags::system()), 0),
    );
    batch.push("raw.bin", entry(9, 0, FILE, 30));
    b.add_batch(&batch);
    let mut batch = EntryBatch::default();
    batch.push("a.pdf", entry(2, 1, FILE, 100));
    batch.push("b.PDF", entry(3, 1, FILE, 50));
    batch.push("notes", entry(4, 1, FILE, 8));
    batch.push("movie.mkv", entry(6, 5, FILE, 500));
    batch.push("pagefile.sys", entry(8, 7, FILE, 999));
    b.add_batch(&batch);
    b.finish()
}

/// Goldens are written with `/`; translate to the platform separator.
fn sep(golden: &str) -> String {
    golden.replace('/', std::path::MAIN_SEPARATOR_STR)
}

/// Same, but for JSON goldens where a `\` separator arrives escaped.
fn json_sep(golden: &str) -> String {
    let s = if std::path::MAIN_SEPARATOR == '\\' {
        "\\\\"
    } else {
        "/"
    };
    golden.replace('/', s)
}

fn csv(tree: &Tree, opts: &ExportOptions) -> (String, u64) {
    let mut buf = String::new();
    let rows = write_csv(tree, 0, opts, &mut buf);
    (buf, rows)
}

#[test]
fn csv_full_export_is_exact() {
    let (got, rows) = csv(&sample(), &ExportOptions::default());
    let want = sep("path,kind,size,allocated,modified,items
root,dir,1687,1687,2023-11-14T22:13:20Z,9
root/sys,dir,999,999,2023-11-14T22:13:20Z,1
root/sys/pagefile.sys,file,999,999,2023-11-14T22:13:20Z,0
root/media,dir,500,500,2023-11-14T22:13:20Z,1
root/media/movie.mkv,file,500,500,2023-11-14T22:13:20Z,0
root/docs,dir,158,158,2023-11-14T22:13:20Z,3
root/docs/a.pdf,file,100,100,2023-11-14T22:13:20Z,0
root/docs/b.PDF,file,50,50,2023-11-14T22:13:20Z,0
root/docs/notes,file,8,8,2023-11-14T22:13:20Z,0
root/raw.bin,file,30,30,2023-11-14T22:13:20Z,0
");
    assert_eq!(got, want);
    assert_eq!(rows, 10);
}

#[test]
fn json_depth_one_is_exact() {
    let mut buf = String::new();
    let opts = ExportOptions {
        max_depth: Some(1),
        ..Default::default()
    };
    let rows = write_json(&sample(), 0, &opts, &mut buf);
    let want = json_sep(
        r#"[
{"path":"root","kind":"dir","size":1687,"allocated":1687,"modified":"2023-11-14T22:13:20Z","items":9},
{"path":"root/sys","kind":"dir","size":999,"allocated":999,"modified":"2023-11-14T22:13:20Z","items":1},
{"path":"root/media","kind":"dir","size":500,"allocated":500,"modified":"2023-11-14T22:13:20Z","items":1},
{"path":"root/docs","kind":"dir","size":158,"allocated":158,"modified":"2023-11-14T22:13:20Z","items":3},
{"path":"root/raw.bin","kind":"file","size":30,"allocated":30,"modified":"2023-11-14T22:13:20Z","items":0}
]
"#,
    );
    assert_eq!(buf, want);
    assert_eq!(rows, 5);
}

#[test]
fn dirs_only_skips_files_everywhere() {
    let opts = ExportOptions {
        dirs_only: true,
        ..Default::default()
    };
    let (got, rows) = csv(&sample(), &opts);
    assert_eq!(rows, 4, "root + 3 dirs:\n{got}");
    assert!(!got.contains("raw.bin") && !got.contains("a.pdf"));
}

#[test]
fn depth_zero_exports_only_the_root() {
    let opts = ExportOptions {
        max_depth: Some(0),
        ..Default::default()
    };
    let (got, rows) = csv(&sample(), &opts);
    assert_eq!(rows, 1);
    assert!(got.lines().nth(1).unwrap().starts_with("root,dir,1687"));
}

/// hide_system removes rows; it must NOT shrink the parent aggregates.
#[test]
fn hide_system_prunes_rows_but_keeps_aggregate_sizes() {
    let opts = ExportOptions {
        hide_system: true,
        ..Default::default()
    };
    let (got, rows) = csv(&sample(), &opts);
    assert_eq!(rows, 8, "sys subtree (2 rows) pruned:\n{got}");
    assert!(!got.contains("sys"));
    assert!(got.contains("root,dir,1687"), "root total unchanged");
}

#[test]
fn csv_fields_with_commas_and_quotes_are_quoted() {
    assert_eq!(csv_field("plain"), "plain");
    assert_eq!(csv_field("a,b"), "\"a,b\"");
    assert_eq!(csv_field("say \"hi\""), "\"say \"\"hi\"\"\"");
}

#[test]
fn json_escape_handles_backslashes_quotes_and_controls() {
    assert_eq!(json_escape("C:\\Users"), "C:\\\\Users");
    assert_eq!(json_escape("a\"b"), "a\\\"b");
    assert_eq!(json_escape("tab\there"), "tab\\u0009here");
}

#[test]
fn modified_formats_iso_utc_and_hides_unknown() {
    assert_eq!(modified(0), "");
    assert_eq!(modified(86_400), "1970-01-02T00:00:00Z");
    assert_eq!(modified(1_700_000_000), "2023-11-14T22:13:20Z");
    assert_eq!(modified(-1), "1969-12-31T23:59:59Z");
}

#[test]
fn export_with_a_backslash_separator_is_exact() {
    let mut buf = String::new();
    let opts = ExportOptions {
        max_depth: Some(1),
        dirs_only: true,
        hide_system: true,
    };
    let rows = write_csv_with(&sample(), 0, &opts, '\\', &mut buf);
    assert_eq!(rows, 3);
    assert_eq!(
        buf,
        "path,kind,size,allocated,modified,items\nroot,dir,1687,1687,2023-11-14T22:13:20Z,9\nroot\\media,dir,500,500,2023-11-14T22:13:20Z,1\nroot\\docs,dir,158,158,2023-11-14T22:13:20Z,3\n"
    );
    let mut json = String::new();
    write_json_with(&sample(), 1, &ExportOptions::default(), '\\', &mut json);
    assert!(json.starts_with("[\n{\"path\":\"docs\",\"kind\":\"dir\""));
    assert!(json.contains("\"path\":\"docs\\\\a.pdf\""));
    assert!(json.ends_with("\"items\":0}\n]\n"));
}

#[test]
fn exporting_a_file_gives_one_row() {
    let (rows, text) = {
        let mut buf = String::new();
        let rows = write_csv_with(&sample(), 9, &ExportOptions::default(), '/', &mut buf);
        (rows, buf)
    };
    assert_eq!(rows, 1);
    assert_eq!(text, "path,kind,size,allocated,modified,items\nraw.bin,file,30,30,2023-11-14T22:13:20Z,0\n");
}

#[test]
fn modified_handles_leap_days_and_distant_years() {
    assert_eq!(modified(951_782_400), "2000-02-29T00:00:00Z");
    assert_eq!(modified(-62_135_596_800), "0001-01-01T00:00:00Z");
    assert_eq!(modified(253_402_300_799), "9999-12-31T23:59:59Z");
    assert_eq!(modified(-62_167_219_200), "0000-01-01T00:00:00Z");
    assert_eq!(modified(-62_198_755_200), "-001-01-01T00:00:00Z");
}

#[test]
fn control_characters_escape_as_lowercase_hex() {
    assert_eq!(json_escape("\u{1f}"), "\\u001f");
    assert_eq!(json_escape("x\ny"), "x\\u000ay");
    assert_eq!(csv_field("line\nbreak"), "\"line\nbreak\"");
    assert_eq!(csv_field("cr\r"), "\"cr\r\"");
}
