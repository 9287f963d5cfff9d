//! What the app's panels show, built from the tree: the breadcrumb trail,
//! search hits, the rows of the type panel, and exports as text.

use vstd::prelude::*;
use vstd::string::{StringExecFns, StringSliceAdditionalSpecFns};
use vstd::utf8::*;

use crate::export::{ExportOptions, count_of, csv_export, export_rows, json_export, write_csv_with, write_json_with};
use crate::search::SearchResults;
use crate::session::{ScanState, busy_export_message, export_block_reason};
use crate::stats::{TypeStat, ext_text, ext_view};
use crate::text::{byte_len, bytes_of, push_str};
use crate::category::lower_all;
use crate::entry::EntryFlags;
use crate::stats::text_lt;
use crate::tree::{NodeId, Tree};

verus! {

broadcast use vstd::utf8::group_utf8_lib;

/// One step of the breadcrumb trail.
pub struct Crumb {
    pub id: NodeId,
    pub name: String,
}

/// The trail from the root down to `id`, each step with its name; `None`
/// for an id that is not in the tree.
pub fn ancestors(tree: &Tree, id: NodeId) -> (r: Option<Vec<Crumb>>)
    requires
        tree.wf(),
    ensures
        r is None <==> !tree.live(id as int),
        r matches Some(v) ==> {
            &&& v@.len() == tree.depth_of(id as int) + 1
            &&& forall|j: int| 0 <= j < v@.len() ==> {
                let m = tree.up(id as int, (tree.depth_of(id as int) - j) as nat);
                &&& (#[trigger] v@[j]).id as int == m
                &&& v@[j].name@ == tree.name_chars(m)
            }
        },
{
    if !tree.is_live(id) {
        return None;
    }
    let chain = tree.ancestry(id);
    let mut out: Vec<Crumb> = Vec::new();
    let mut i: usize = 0;
    while i < chain.len()
        invariant
            tree.wf(),
            i <= chain@.len(),
            out@.len() == i,
            forall|j: int| 0 <= j < chain@.len() ==> tree.live(#[trigger] chain@[j] as int),
            forall|j: int| 0 <= j < i ==> (#[trigger] out@[j]).id == chain@[j] && out@[j].name@ == tree.name_chars(chain@[j] as int),
        decreases chain@.len() - i,
    {
        let m = chain[i];
        proof {
            tree.lemma_live_slot(m as int);
        }
        let name = tree.name(m);
        proof {
            encode_utf8_decode_utf8(name@);
        }
        out.push(Crumb { id: m, name: String::from_str(name) });
        i = i + 1;
    }
    Some(out)
}

/// One search hit as the results list shows it.
pub struct SearchHit {
    pub id: NodeId,
    pub name: String,
    pub is_dir: bool,
    pub size: u64,
    pub path: String,
}

/// The hits shown and how many matched in all.
pub struct SearchResultsDto {
    pub hits: Vec<SearchHit>,
    pub total: u64,
}

/// The hit shown for node `m`, with `sep` between the names of its path.
pub open spec fn shows(tree: Tree, m: int, h: SearchHit, sep: char) -> bool {
    &&& h.id as int == m
    &&& h.name@ == tree.name_chars(m)
    &&& h.is_dir == tree.is_dir_at(m)
    &&& h.size == tree.node_view(m).size
    &&& h.path@ == tree.path_view(m, sep)
}

/// Each hit shows the node at the same place in `ids`.
pub open spec fn all_shown(tree: Tree, ids: Seq<NodeId>, hits: Seq<SearchHit>, sep: char) -> bool {
    forall|i: int| 0 <= i < hits.len() ==> shows(tree, ids[i] as int, #[trigger] hits[i], sep)
}

/// The results of `search` as the list shows them, paths joined with `sep`.
pub fn search_hits_with(tree: &Tree, res: &SearchResults, sep: char) -> (r: SearchResultsDto)
    requires
        tree.wf(),
        sep == '/' || sep == '\\',
        forall|i: int| 0 <= i < res.ids@.len() ==> #[trigger] res.ids@[i] < tree.slots(),
    ensures
        r.total == res.total_matches,
        r.hits@.len() == res.ids@.len(),
        all_shown(*tree, res.ids@, r.hits@, sep),
{
    let mut hits: Vec<SearchHit> = Vec::new();
    let mut i: usize = 0;
    while i < res.ids.len()
        invariant
            tree.wf(),
            sep == '/' || sep == '\\',
            i <= res.ids@.len(),
            hits@.len() == i,
            forall|j: int| 0 <= j < res.ids@.len() ==> #[trigger] res.ids@[j] < tree.slots(),
            forall|j: int| 0 <= j < i ==> shows(*tree, res.ids@[j] as int, #[trigger] hits@[j], sep),
        decreases res.ids@.len() - i,
    {
        let id = res.ids[i];
        let name = tree.name(id);
        proof {
            encode_utf8_decode_utf8(name@);
        }
        let node = tree.node(id);
        hits.push(SearchHit {
            id,
            name: String::from_str(name),
            is_dir: node.is_dir(),
            size: node.size,
            path: tree.path_with(id, sep),
        });
        i = i + 1;
    }
    SearchResultsDto { hits, total: res.total_matches }
}

/// The results of `search` as the list shows them, paths joined with the
/// platform's separator.
pub fn search_hits(tree: &Tree, res: &SearchResults) -> (r: SearchResultsDto)
    requires
        tree.wf(),
        forall|i: int| 0 <= i < res.ids@.len() ==> #[trigger] res.ids@[i] < tree.slots(),
    ensures
        r.total == res.total_matches,
        r.hits@.len() == res.ids@.len(),
        exists|sep: char| (sep == '/' || sep == '\\') && #[trigger] all_shown(*tree, res.ids@, r.hits@, sep),
{
    let sep = crate::tree::main_separator();
    search_hits_with(tree, res, sep)
}

/// One row of the type panel.
pub struct TypeStatDto {
    /// The extension, empty for files without one.
    pub ext: String,
    /// The category's palette slot.
    pub category: u8,
    pub bytes: u64,
    pub files: u64,
}

/// The type panel's rows for a breakdown's groups, in order.
pub fn type_rows(types: &Vec<TypeStat>) -> (r: Vec<TypeStatDto>)
    ensures
        r@.len() == types@.len(),
        forall|i: int| 0 <= i < r@.len() ==> {
            let t = types@[i];
            &&& (#[trigger] r@[i]).ext@ == ext_text(ext_view(t.ext))
            &&& r@[i].category == crate::category::palette_slot(t.category)
            &&& r@[i].bytes == t.bytes
            &&& r@[i].files == t.files
        },
{
    let mut out: Vec<TypeStatDto> = Vec::new();
    let mut i: usize = 0;
    while i < types.len()
        invariant
            i <= types@.len(),
            out@.len() == i,
            forall|j: int| 0 <= j < i ==> {
                let t = types@[j];
                &&& (#[trigger] out@[j]).ext@ == ext_text(ext_view(t.ext))
                &&& out@[j].category == crate::category::palette_slot(t.category)
                &&& out@[j].bytes == t.bytes
                &&& out@[j].files == t.files
            },
        decreases types@.len() - i,
    {
        let t = &types[i];
        let mut ext = String::new();
        match &t.ext {
            Some(k) => push_str(&mut ext, k.as_str()),
            None => {},
        }
        proof {
            if t.ext is None {
                assert(ext@ =~= Seq::<char>::empty());
            }
        }
        out.push(TypeStatDto { ext, category: t.category.index(), bytes: t.bytes, files: t.files });
        i = i + 1;
    }
    out
}

/// What the export dialog asks for.
#[derive(Clone, Copy, Debug)]
pub struct ExportArgs {
    pub max_depth: Option<u32>,
    pub dirs_only: bool,
    pub hide_system: bool,
}

impl ExportArgs {
    pub fn options(self) -> (r: ExportOptions)
        ensures
            r.max_depth == self.max_depth,
            r.dirs_only == self.dirs_only,
            r.hide_system == self.hide_system,
    {
        ExportOptions { max_depth: self.max_depth, dirs_only: self.dirs_only, hide_system: self.hide_system }
    }
}

/// An export handed back as text, with its row count.
pub struct ExportText {
    pub rows: u64,
    pub text: String,
}

/// The most bytes an export handed back as text may hold (16 MiB).
pub const TEXT_EXPORT_CAP: usize = 16777216;

pub open spec fn too_big_message() -> Seq<char> {
    "export is bigger than 16 MiB — save it to a file instead, or lower the depth"@
}

pub open spec fn unknown_node_message() -> Seq<char> {
    "unknown node"@
}

pub open spec fn unknown_format_message(format: Seq<char>) -> Seq<char> {
    "unknown export format: "@ + format
}

/// The export of the subtree at `root` in `format` (`csv` or `json`), with
/// `sep` between the names of each path.
pub open spec fn export_of(tree: Tree, root: int, format: Seq<char>, opts: ExportOptions, sep: char) -> Seq<char> {
    if format == "csv"@ {
        csv_export(tree, root, opts, sep)
    } else {
        json_export(tree, root, opts, sep)
    }
}

/// What exporting the subtree at `root` as text gives when the export is
/// allowed: the text, or a refusal when it is past `TEXT_EXPORT_CAP` bytes.
pub open spec fn exported(tree: Tree, root: int, format: Seq<char>, opts: ExportOptions, sep: char, r: Result<ExportText, String>) -> bool {
    let text = export_of(tree, root, format, opts, sep);
    &&& bytes_of(text).len() > TEXT_EXPORT_CAP ==> (r matches Err(m) && m@ == too_big_message())
    &&& bytes_of(text).len() <= TEXT_EXPORT_CAP ==> (r matches Ok(e) && e.text@ == text
        && e.rows == count_of(export_rows(tree, root, opts, sep).len()))
}

/// The subtree at `root` exported as text in `format`, paths joined with
/// `sep`. Refused while a scan runs, for an id not in the tree, for a
/// format other than `csv` and `json`, and past `TEXT_EXPORT_CAP` bytes.
pub fn export_text_with(tree: &Tree, scan_state: ScanState, root: NodeId, format: &str, args: ExportArgs, sep: char) -> (r: Result<ExportText, String>)
    requires
        tree.wf(),
        sep == '/' || sep == '\\',
    ensures
        scan_state == ScanState::Scanning ==> (r matches Err(m) && m@ == busy_export_message()),
        scan_state != ScanState::Scanning && !tree.live(root as int) ==> (r matches Err(m) && m@ == unknown_node_message()),
        scan_state != ScanState::Scanning && tree.live(root as int) && format@ != "csv"@ && format@ != "json"@
            ==> (r matches Err(m) && m@ == unknown_format_message(format@)),
        scan_state != ScanState::Scanning && tree.live(root as int) && (format@ == "csv"@ || format@ == "json"@)
            ==> exported(*tree, root as int, format@, args.options_view(), sep, r),
{
    if let Some(reason) = export_block_reason(scan_state) {
        return Err(reason);
    }
    if !tree.is_live(root) {
        let mut m = String::new();
        push_str(&mut m, "unknown node");
        proof {
            reveal_strlit("unknown node");
        }
        return Err(m);
    }
    proof {
        reveal_strlit("csv");
        reveal_strlit("json");
        encode_utf8_decode_utf8(format@);
        encode_utf8_decode_utf8("csv"@);
        encode_utf8_decode_utf8("json"@);
        tree.lemma_live_slot(root as int);
    }
    let opts = args.options();
    let mut text = String::new();
    let rows = if crate::interner::str_eq(format, "csv") {
        write_csv_with(tree, root, &opts, sep, &mut text)
    } else if crate::interner::str_eq(format, "json") {
        write_json_with(tree, root, &opts, sep, &mut text)
    } else {
        let mut m = String::new();
        push_str(&mut m, "unknown export format: ");
        push_str(&mut m, format);
        return Err(m);
    };
    proof {
        assert(text@ =~= export_of(*tree, root as int, format@, opts, sep));
    }
    if byte_len(text.as_str()) > TEXT_EXPORT_CAP {
        let mut m = String::new();
        push_str(&mut m, "export is bigger than 16 MiB — save it to a file instead, or lower the depth");
        return Err(m);
    }
    Ok(ExportText { rows, text })
}

/// The subtree at `root` exported as text in `format`, paths joined with
/// the platform's separator; see `export_text_with`.
pub fn export_text(tree: &Tree, scan_state: ScanState, root: NodeId, format: &str, args: ExportArgs) -> (r: Result<ExportText, String>)
    requires
        tree.wf(),
    ensures
        scan_state == ScanState::Scanning ==> (r matches Err(m) && m@ == busy_export_message()),
        scan_state != ScanState::Scanning && !tree.live(root as int) ==> (r matches Err(m) && m@ == unknown_node_message()),
        scan_state != ScanState::Scanning && tree.live(root as int) && format@ != "csv"@ && format@ != "json"@
            ==> (r matches Err(m) && m@ == unknown_format_message(format@)),
        scan_state != ScanState::Scanning && tree.live(root as int) && (format@ == "csv"@ || format@ == "json"@) ==> exists|sep: char|
            (sep == '/' || sep == '\\') && #[trigger] exported(*tree, root as int, format@, args.options_view(), sep, r),
{
    let sep = crate::tree::main_separator();
    export_text_with(tree, scan_state, root, format, args, sep)
}

impl ExportArgs {
    pub open spec fn options_view(self) -> ExportOptions {
        ExportOptions { max_depth: self.max_depth, dirs_only: self.dirs_only, hide_system: self.hide_system }
    }
}

/// One row of a directory listing. (The share of the parent's size is a
/// ratio the display works out from `size`.)
pub struct Row {
    pub id: NodeId,
    pub name: String,
    pub is_dir: bool,
    pub size: u64,
    pub allocated: u64,
    pub items: u32,
    pub mtime: i64,
    pub has_children: bool,
    pub is_reparse: bool,
    pub is_error: bool,
}

/// A directory's rows.
pub struct DirListing {
    pub id: NodeId,
    pub rows: Vec<Row>,
}

/// What a listing is ordered by.
#[derive(Clone, Copy, Debug, PartialEq, Eq, Structural)]
pub enum SortKey {
    Name,
    Items,
    Mtime,
    Size,
}

/// The key a sort request names: `name`, `items` and `mtime` by name, any
/// other text by size.
pub open spec fn key_named(s: Seq<char>) -> SortKey {
    if s == "name"@ {
        SortKey::Name
    } else if s == "items"@ {
        SortKey::Items
    } else if s == "mtime"@ {
        SortKey::Mtime
    } else {
        SortKey::Size
    }
}

pub fn sort_key(s: &str) -> (k: SortKey)
    ensures
        k == key_named(s@),
{
    proof {
        reveal_strlit("name");
        reveal_strlit("items");
        reveal_strlit("mtime");
        encode_utf8_decode_utf8(s@);
        encode_utf8_decode_utf8("name"@);
        encode_utf8_decode_utf8("items"@);
        encode_utf8_decode_utf8("mtime"@);
    }
    if crate::interner::str_eq(s, "name") {
        SortKey::Name
    } else if crate::interner::str_eq(s, "items") {
        SortKey::Items
    } else if crate::interner::str_eq(s, "mtime") {
        SortKey::Mtime
    } else {
        SortKey::Size
    }
}

/// `a` sorts strictly before `b` by `k`; names compare ASCII-lowercased,
/// by code point.
pub open spec fn row_lt(a: Row, b: Row, k: SortKey) -> bool {
    match k {
        SortKey::Name => text_lt(lower_all(a.name@), lower_all(b.name@)),
        SortKey::Items => a.items < b.items,
        SortKey::Mtime => a.mtime < b.mtime,
        SortKey::Size => a.size < b.size,
    }
}

/// The row shown for node `m`.
pub open spec fn row_shows(tree: Tree, m: int, r: Row) -> bool {
    let n = tree.node_view(m);
    &&& r.id as int == m
    &&& r.name@ == tree.name_chars(m)
    &&& r.is_dir == n.flags.spec_is_dir()
    &&& r.size == n.size
    &&& r.allocated == n.allocated
    &&& r.items == n.items
    &&& r.mtime == n.mtime
    &&& r.has_children == (tree.children_of(m).len() > 0)
    &&& r.is_reparse == n.flags.has(EntryFlags::spec_reparse())
    &&& r.is_error == n.flags.has(EntryFlags::spec_error())
}

/// The children in `ks` a listing keeps: all of them, or with
/// `hide_system` the ones not marked SYSTEM.
pub open spec fn kept_kids(tree: Tree, ks: Seq<u32>, hide_system: bool) -> Seq<u32>
    decreases ks.len(),
{
    if ks.len() == 0 {
        Seq::empty()
    } else {
        let prev = kept_kids(tree, ks.drop_last(), hide_system);
        if hide_system && tree.node_view(ks.last() as int).flags.has(EntryFlags::spec_system()) {
            prev
        } else {
            prev.push(ks.last())
        }
    }
}

pub open spec fn row_ids(rows: Seq<Row>) -> Seq<NodeId> {
    rows.map_values(|r: Row| r.id)
}

fn lowered(s: &str) -> (r: Vec<char>)
    ensures
        r@ == lower_all(s@),
{
    let cs = crate::text::chars_of(s);
    let mut r: Vec<char> = Vec::new();
    let mut i: usize = 0;
    while i < cs.len()
        invariant
            i <= cs@.len(),
            cs@ == s@,
            r@ == lower_all(cs@.take(i as int)),
        decreases cs@.len() - i,
    {
        r.push(crate::search::lower_ascii(cs[i]));
        i = i + 1;
        proof {
            assert(r@ =~= lower_all(cs@.take(i as int)));
        }
    }
    proof {
        assert(cs@.take(cs@.len() as int) =~= cs@);
    }
    r
}

fn chars_less(x: &Vec<char>, y: &Vec<char>) -> (r: bool)
    ensures
        r == text_lt(x@, y@),
{
    proof {
        assert(x@.subrange(0, x@.len() as int) =~= x@);
        assert(y@.subrange(0, y@.len() as int) =~= y@);
    }
    let mut i: usize = 0;
    while i < x.len() && i < y.len() && x[i] == y[i]
        invariant
            i <= x@.len(),
            i <= y@.len(),
            text_lt(x@, y@) == text_lt(x@.subrange(i as int, x@.len() as int), y@.subrange(i as int, y@.len() as int)),
        decreases x@.len() - i,
    {
        proof {
            let sx = x@.subrange(i as int, x@.len() as int);
            let sy = y@.subrange(i as int, y@.len() as int);
            assert(sx.drop_first() =~= x@.subrange(i + 1, x@.len() as int));
            assert(sy.drop_first() =~= y@.subrange(i + 1, y@.len() as int));
        }
        i = i + 1;
    }
    let ghost sx = x@.subrange(i as int, x@.len() as int);
    let ghost sy = y@.subrange(i as int, y@.len() as int);
    if i == y.len() {
        false
    } else if i == x.len() {
        true
    } else {
        proof {
            assert(sx[0] == x@[i as int]);
            assert(sy[0] == y@[i as int]);
        }
        (x[i] as u32) < (y[i] as u32)
    }
}

fn row_less(a: &Row, b: &Row, k: SortKey) -> (r: bool)
    ensures
        r == row_lt(*a, *b, k),
{
    match k {
        SortKey::Name => {
            let x = lowered(a.name.as_str());
            let y = lowered(b.name.as_str());
            chars_less(&x, &y)
        },
        SortKey::Items => a.items < b.items,
        SortKey::Mtime => a.mtime < b.mtime,
        SortKey::Size => a.size < b.size,
    }
}

/// `row_lt` orders rows strictly and weakly: one before another and that
/// one not before a third puts the first before the third.
proof fn lemma_row_lt(a: Row, b: Row, c: Row, k: SortKey)
    ensures
        row_lt(a, b, k) ==> !row_lt(b, a, k),
        row_lt(a, b, k) && !row_lt(c, b, k) ==> row_lt(a, c, k),
        !row_lt(a, b, k) && !row_lt(b, c, k) ==> !row_lt(a, c, k),
{
    if k == SortKey::Name {
        let la = lower_all(a.name@);
        let lb = lower_all(b.name@);
        let lc = lower_all(c.name@);
        crate::stats::lemma_text_lt_total(la, lb);
        crate::stats::lemma_text_lt_total(lb, lc);
        crate::stats::lemma_text_lt_total(la, lc);
        if text_lt(la, lb) && text_lt(lb, lc) {
            crate::stats::lemma_text_lt_trans(la, lb, lc);
        }
        if text_lt(lc, lb) && text_lt(lb, la) {
            crate::stats::lemma_text_lt_trans(lc, lb, la);
        }
    }
}

/// The listing of directory `id`: a row for each kept child, ordered by
/// `sort_by` (ascending, or non-increasing when `descending`); `None` for an
/// id that is not a live directory.
pub fn dir_listing(tree: &Tree, id: NodeId, sort_by: &str, descending: bool, hide_system: bool) -> (r: Option<DirListing>)
    requires
        tree.wf(),
    ensures
        r is None <==> !(tree.live(id as int) && tree.is_dir_at(id as int)),
        r matches Some(l) ==> {
            let k = key_named(sort_by@);
            let rows = l.rows@;
            &&& l.id == id
            &&& row_ids(rows).to_multiset() == kept_kids(*tree, tree.children_of(id as int), hide_system).to_multiset()
            &&& forall|i: int| 0 <= i < rows.len() ==> row_shows(*tree, rows[i].id as int, #[trigger] rows[i])
            &&& !descending ==> forall|i: int, j: int| 0 <= i < j < rows.len() ==> !row_lt(#[trigger] rows[j], #[trigger] rows[i], k)
            &&& descending ==> forall|i: int, j: int| 0 <= i < j < rows.len() ==> !row_lt(#[trigger] rows[i], #[trigger] rows[j], k)
        },
{
    if !tree.is_live(id) {
        return None;
    }
    proof {
        tree.lemma_live_slot(id as int);
    }
    if !tree.node(id).is_dir() {
        return None;
    }
    let k = sort_key(sort_by);
    let ghost ks = tree.children_of(id as int);
    proof {
        tree.lemma_children_exact(id as int);
    }
    let mut it = tree.children(id);
    let mut out: Vec<Row> = Vec::new();
    let ghost mut done: int = 0;
    proof {
        assert(ks.subrange(0, ks.len() as int) =~= ks);
        assert(ks.take(0) =~= Seq::<u32>::empty());
        assert(row_ids(out@) =~= Seq::<u32>::empty());
    }
    loop
        invariant
            tree.wf(),
            it.wf(),
            it.tree_view() == *tree,
            0 <= done <= ks.len(),
            ks == tree.children_of(id as int),
            it.remaining() == ks.subrange(done, ks.len() as int),
            forall|i: int| 0 <= i < ks.len() ==> (#[trigger] ks[i]) < tree.slots(),
            k == key_named(sort_by@),
            row_ids(out@).to_multiset() == kept_kids(*tree, ks.take(done), hide_system).to_multiset(),
            forall|i: int| 0 <= i < out@.len() ==> row_shows(*tree, out@[i].id as int, #[trigger] out@[i]),
            forall|i: int, j: int| 0 <= i < j < out@.len() ==> !row_lt(#[trigger] out@[j], #[trigger] out@[i], k),
        ensures
            done == ks.len(),
            row_ids(out@).to_multiset() == kept_kids(*tree, ks.take(done), hide_system).to_multiset(),
            forall|i: int| 0 <= i < out@.len() ==> row_shows(*tree, out@[i].id as int, #[trigger] out@[i]),
            forall|i: int, j: int| 0 <= i < j < out@.len() ==> !row_lt(#[trigger] out@[j], #[trigger] out@[i], k),
        decreases ks.len() - done,
    {
        let c = match it.next() {
            None => break,
            Some(c) => c,
        };
        proof {
            assert(c == ks[done]);
            assert(ks.take(done + 1).drop_last() =~= ks.take(done));
            assert(ks.take(done + 1).last() == c);
            done = done + 1;
        }
        let node = tree.node(c);
        if hide_system && node.flags.contains(EntryFlags::system()) {
            continue;
        }
        let name = tree.name(c);
        proof {
            encode_utf8_decode_utf8(name@);
        }
        let mut kids = tree.children(c);
        let has_children = kids.next().is_some();
        let row = Row {
            id: c,
            name: String::from_str(name),
            is_dir: node.is_dir(),
            size: node.size,
            allocated: node.allocated,
            items: node.items,
            mtime: node.mtime,
            has_children,
            is_reparse: node.flags.contains(EntryFlags::reparse()),
            is_error: node.flags.contains(EntryFlags::error()),
        };
        // insertion point: after every row the new one does not sort before
        let mut p: usize = 0;
        while p < out.len() && !row_less(&row, &out[p], k)
            invariant
                p <= out@.len(),
                forall|q: int| 0 <= q < p ==> !row_lt(row, #[trigger] out@[q], k),
            decreases out@.len() - p,
        {
            p = p + 1;
        }
        let ghost before = out@;
        out.insert(p, row);
        proof {
            assert(row_ids(out@) =~= row_ids(before).insert(p as int, c));
            vstd::seq_lib::to_multiset_insert(row_ids(before), p as int, c);
            vstd::seq_lib::to_multiset_build(kept_kids(*tree, ks.take(done - 1), hide_system), c);
            assert forall|i: int| 0 <= i < out@.len() implies row_shows(*tree, out@[i].id as int, #[trigger] out@[i]) by {
                if i < p {
                    assert(out@[i] == before[i]);
                } else if i > p {
                    assert(out@[i] == before[i - 1]);
                }
            }
            assert forall|i: int, j: int| 0 <= i < j < out@.len() implies !row_lt(#[trigger] out@[j], #[trigger] out@[i], k) by {
                if j < p {
                    assert(out@[i] == before[i] && out@[j] == before[j]);
                } else if j == p {
                    assert(out@[i] == before[i]);
                } else if i == p {
                    assert(out@[j] == before[j - 1]);
                    if p < before.len() {
                        assert(row_lt(row, before[p as int], k));
                        lemma_row_lt(row, before[p as int], before[j - 1], k);
                        lemma_row_lt(before[j - 1], row, row, k);
                    }
                } else if i < p {
                    assert(out@[i] == before[i] && out@[j] == before[j - 1]);
                } else {
                    assert(out@[i] == before[i - 1] && out@[j] == before[j - 1]);
                }
            }
        }
    }
    proof {
        assert(ks.take(done) =~= ks);
    }
    if !descending {
        return Some(DirListing { id, rows: out });
    }
    let ghost asc = out@;
    let mut rev: Vec<Row> = Vec::new();
    while out.len() > 0
        invariant
            out@.len() <= asc.len(),
            out@ == asc.take(out@.len() as int),
            rev@ == asc.skip(out@.len() as int).reverse(),
        decreases out@.len(),
    {
        let ghost n = out@.len() as int;
        let ghost o = out@;
        let ghost v = rev@;
        let r = out.pop().unwrap();
        proof {
            assert(r == o[n - 1]);
            assert(o[n - 1] == asc[n - 1]);
            assert(out@ =~= o.subrange(0, n - 1));
            assert(out@ =~= asc.take(n - 1));
        }
        rev.push(r);
        proof {
            assert(rev@ =~= v.push(asc[n - 1]));
            assert(asc.skip(n - 1).reverse() =~= asc.skip(n).reverse().push(asc[n - 1]));
        }
    }
    proof {
        assert(asc.skip(0) =~= asc);
        assert(row_ids(rev@) =~= row_ids(asc).reverse());
        row_ids(asc).lemma_reverse_to_multiset();
        assert forall|i: int| 0 <= i < rev@.len() implies row_shows(*tree, rev@[i].id as int, #[trigger] rev@[i]) by {
            assert(rev@[i] == asc[asc.len() - 1 - i]);
        }
        assert forall|i: int, j: int| 0 <= i < j < rev@.len() implies !row_lt(#[trigger] rev@[i], #[trigger] rev@[j], k) by {
            assert(rev@[i] == asc[asc.len() - 1 - i]);
            assert(rev@[j] == asc[asc.len() - 1 - j]);
        }
    }
    Some(DirListing { id, rows: rev })
}

} // verus!
