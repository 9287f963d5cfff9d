//! Tree export: rows of node facts as CSV or JSON text. Rows are node facts
//! — `hide_system` prunes rows but never re-aggregates sizes, so a pruned
//! parent still reports its full subtree total.

use vstd::prelude::*;

use crate::entry::EntryFlags;
use crate::rank::{listed_before, top_hits};
use crate::text::{chars_of, decimal, push_char, push_decimal, push_str};
use crate::tree::{Node, NodeId, Tree};

verus! {

broadcast use vstd::utf8::group_utf8_lib;

/// A CSV field needs quoting when it holds a comma, a quote or a line break.
pub open spec fn needs_quotes(s: Seq<char>) -> bool {
    exists|i: int| 0 <= i < s.len() && (s[i] == ',' || s[i] == '"' || s[i] == '\n' || s[i] == '\r')
}

/// `s` with every `"` doubled.
pub open spec fn doubled_quotes(s: Seq<char>) -> Seq<char>
    decreases s.len(),
{
    if s.len() == 0 {
        Seq::empty()
    } else {
        doubled_quotes(s.drop_last()) + (if s.last() == '"' { seq!['"', '"'] } else { seq![s.last()] })
    }
}

/// `s` as one CSV field: quoted, with quotes doubled, when it needs it.
pub open spec fn csv_text(s: Seq<char>) -> Seq<char> {
    if needs_quotes(s) {
        seq!['"'] + doubled_quotes(s) + seq!['"']
    } else {
        s
    }
}

/// The lowercase hex digit of `d < 16`.
pub open spec fn hex_char(d: nat) -> char {
    if d < 10 {
        crate::text::digit_char(d)
    } else if d == 10 {
        'a'
    } else if d == 11 {
        'b'
    } else if d == 12 {
        'c'
    } else if d == 13 {
        'd'
    } else if d == 14 {
        'e'
    } else {
        'f'
    }
}

/// One character inside a JSON string: quote and backslash escaped,
/// control characters as `\u00XX`.
pub open spec fn json_char(c: char) -> Seq<char> {
    if c == '"' {
        seq!['\\', '"']
    } else if c == '\\' {
        seq!['\\', '\\']
    } else if (c as u32) < 0x20 {
        seq!['\\', 'u', '0', '0', hex_char(((c as u32) / 16) as nat), hex_char(((c as u32) % 16) as nat)]
    } else {
        seq![c]
    }
}

/// `s` escaped for the inside of a JSON string.
pub open spec fn json_text(s: Seq<char>) -> Seq<char>
    decreases s.len(),
{
    if s.len() == 0 {
        Seq::empty()
    } else {
        json_text(s.drop_last()) + json_char(s.last())
    }
}

fn hex_digit(d: u32) -> (c: char)
    requires
        d < 16,
    ensures
        c == hex_char(d as nat),
{
    if d < 10 {
        let s = crate::text::digit_str(d as u64);
        let v = chars_of(s);
        v[0]
    } else if d == 10 {
        'a'
    } else if d == 11 {
        'b'
    } else if d == 12 {
        'c'
    } else if d == 13 {
        'd'
    } else if d == 14 {
        'e'
    } else {
        'f'
    }
}

/// Appends `s` as one CSV field.
fn push_csv_field(out: &mut String, s: &Vec<char>)
    ensures
        final(out)@ == old(out)@ + csv_text(s@),
{
    let mut quote = false;
    let mut i: usize = 0;
    while i < s.len()
        invariant
            i <= s@.len(),
            quote <==> exists|j: int| 0 <= j < i && (s@[j] == ',' || s@[j] == '"' || s@[j] == '\n' || s@[j] == '\r'),
        decreases s@.len() - i,
    {
        let c = s[i];
        if c == ',' || c == '"' || c == '\n' || c == '\r' {
            quote = true;
        }
        i = i + 1;
    }
    if !quote {
        push_str_chars(out, s);
        return;
    }
    push_char(out, '"');
    let ghost start = out@;
    let mut k: usize = 0;
    while k < s.len()
        invariant
            k <= s@.len(),
            out@ == start + doubled_quotes(s@.subrange(0, k as int)),
        decreases s@.len() - k,
    {
        let c = s[k];
        if c == '"' {
            push_char(out, '"');
            push_char(out, '"');
        } else {
            push_char(out, c);
        }
        proof {
            let p = s@.subrange(0, k + 1);
            assert(p.drop_last() =~= s@.subrange(0, k as int));
        }
        k = k + 1;
    }
    proof {
        assert(s@.subrange(0, s@.len() as int) =~= s@);
    }
    push_char(out, '"');
}

/// Appends the characters of `s`.
fn push_str_chars(out: &mut String, s: &Vec<char>)
    ensures
        final(out)@ == old(out)@ + s@,
{
    let ghost start = out@;
    let mut k: usize = 0;
    while k < s.len()
        invariant
            k <= s@.len(),
            out@ == start + s@.subrange(0, k as int),
        decreases s@.len() - k,
    {
        push_char(out, s[k]);
        proof {
            assert(start + s@.subrange(0, k + 1) =~= (start + s@.subrange(0, k as int)).push(s@[k as int]));
        }
        k = k + 1;
    }
    proof {
        assert(s@.subrange(0, s@.len() as int) =~= s@);
    }
}

/// Appends `s` escaped for the inside of a JSON string.
fn push_json_escaped(out: &mut String, s: &Vec<char>)
    ensures
        final(out)@ == old(out)@ + json_text(s@),
{
    let ghost start = out@;
    let mut k: usize = 0;
    while k < s.len()
        invariant
            k <= s@.len(),
            out@ == start + json_text(s@.subrange(0, k as int)),
        decreases s@.len() - k,
    {
        let c = s[k];
        let ghost before = out@;
        if c == '"' {
            push_char(out, '\\');
            push_char(out, '"');
        } else if c == '\\' {
            push_char(out, '\\');
            push_char(out, '\\');
        } else if (c as u32) < 0x20 {
            push_char(out, '\\');
            push_char(out, 'u');
            push_char(out, '0');
            push_char(out, '0');
            push_char(out, hex_digit((c as u32) / 16));
            push_char(out, hex_digit((c as u32) % 16));
        } else {
            push_char(out, c);
        }
        proof {
            assert(out@ =~= before + json_char(c));
            let p = s@.subrange(0, k + 1);
            assert(p.drop_last() =~= s@.subrange(0, k as int));
        }
        k = k + 1;
    }
    proof {
        assert(s@.subrange(0, s@.len() as int) =~= s@);
    }
}

/// `s` as one CSV field: wrapped in quotes, quotes doubled, when it holds
/// a comma, a quote or a line break; unchanged otherwise.
pub fn csv_field(s: &str) -> (r: String)
    ensures
        r@ == csv_text(s@),
{
    let v = chars_of(s);
    let mut out = String::new();
    push_csv_field(&mut out, &v);
    out
}

/// `s` escaped for a JSON string: `"` and `\` backslashed, control
/// characters as `\u00XX`.
pub fn json_escape(s: &str) -> (r: String)
    ensures
        r@ == json_text(s@),
{
    let v = chars_of(s);
    let mut out = String::new();
    push_json_escaped(&mut out, &v);
    out
}


/// `k` zeros (none when `k <= 0`).
pub open spec fn zeros(k: int) -> Seq<char> {
    Seq::new(if k > 0 { k as nat } else { 0 }, |i: int| '0')
}

/// `v` as `format!("{:0w$}")` writes it: the sign, then zeros up to `w`
/// characters in all, then the digits.
pub open spec fn padded(v: int, w: int) -> Seq<char> {
    if v < 0 {
        seq!['-'] + zeros(w - 1 - decimal((-v) as nat).len()) + decimal((-v) as nat)
    } else {
        zeros(w - decimal(v as nat).len()) + decimal(v as nat)
    }
}

/// Days since 1970-01-01 as (year, month, day) of the proleptic Gregorian
/// calendar, by Howard Hinnant's civil-from-days formulas.
pub open spec fn civil(days: int) -> (int, int, int) {
    let z = days + 719468;
    let era = z / 146097;
    let doe = z % 146097;
    let yoe = (doe - doe / 1460 + doe / 36524 - doe / 146096) / 365;
    let doy = doe - (365 * yoe + yoe / 4 - yoe / 100);
    let mp = (5 * doy + 2) / 153;
    let d = doy - (153 * mp + 2) / 5 + 1;
    let m = if mp < 10 { mp + 3 } else { mp - 9 };
    (yoe + era * 400 + (if m <= 2 { 1int } else { 0int }), m, d)
}

/// `mtime` (seconds since the Unix epoch) as `YYYY-MM-DDTHH:MM:SSZ`; empty
/// for 0, the unknown time.
pub open spec fn modified_text(mtime: int) -> Seq<char> {
    if mtime == 0 {
        Seq::empty()
    } else {
        let days = mtime / 86400;
        let sod = mtime % 86400;
        let (y, m, d) = civil(days);
        padded(y, 4) + seq!['-'] + padded(m, 2) + seq!['-'] + padded(d, 2) + seq!['T'] + padded(sod / 3600, 2) + seq![':']
            + padded((sod / 60) % 60, 2) + seq![':'] + padded(sod % 60, 2) + seq!['Z']
    }
}

fn digit_count(n: u64) -> (r: usize)
    ensures
        r == decimal(n as nat).len(),
    decreases n,
{
    proof {
        lemma_decimal_len(n as nat, 20);
    }
    if n < 10 {
        1
    } else {
        let k = digit_count(n / 10);
        proof {
            assert(decimal(n as nat) == decimal((n / 10) as nat).push(crate::text::digit_char((n % 10) as nat)));
        }
        k + 1
    }
}

pub open spec fn pow10(k: nat) -> nat
    decreases k,
{
    if k == 0 {
        1
    } else {
        10 * pow10((k - 1) as nat)
    }
}

proof fn lemma_decimal_len(n: nat, k: nat)
    requires
        k == 20 ==> n <= u64::MAX,
        k != 20 ==> 1 <= k && n < pow10(k),
    ensures
        decimal(n).len() <= k,
    decreases k,
{
    if k == 20 {
        assert(pow10(20) == 100_000_000_000_000_000_000) by {
            reveal_with_fuel(pow10, 21);
        }
        lemma_decimal_len_pow(n, 20);
    } else {
        lemma_decimal_len_pow(n, k);
    }
}

proof fn lemma_decimal_len_pow(n: nat, k: nat)
    requires
        1 <= k,
        n < pow10(k),
    ensures
        decimal(n).len() <= k,
    decreases k,
{
    if n >= 10 {
        if k == 1 {
            assert(pow10(1) == 10 * pow10(0));
        } else {
            assert(n / 10 < pow10((k - 1) as nat));
            lemma_decimal_len_pow(n / 10, (k - 1) as nat);
        }
    }
}

fn push_zeros(out: &mut String, k: usize)
    ensures
        final(out)@ == old(out)@ + zeros(k as int),
{
    let ghost start = out@;
    let mut i: usize = 0;
    while i < k
        invariant
            i <= k,
            out@ == start + zeros(i as int),
        decreases k - i,
    {
        push_char(out, '0');
        proof {
            assert(start + zeros(i + 1) =~= (start + zeros(i as int)).push('0'));
        }
        i = i + 1;
    }
}

/// Appends `v` zero-padded to `w` characters, sign included.
fn push_padded(out: &mut String, v: i64, w: usize)
    requires
        w <= 8,
    ensures
        final(out)@ == old(out)@ + padded(v as int, w as int),
{
    if v < 0 {
        let mag: u64 = (0i128 - v as i128) as u64;
        let k = digit_count(mag);
        push_char(out, '-');
        if w >= 1 && w - 1 > k {
            push_zeros(out, w - 1 - k);
        } else {
            push_zeros(out, 0);
        }
        push_decimal(out, mag);
        proof {
            assert(zeros(0) =~= Seq::<char>::empty());
        }
    } else {
        let mag: u64 = v as u64;
        let k = digit_count(mag);
        if w > k {
            push_zeros(out, w - k);
        } else {
            push_zeros(out, 0);
        }
        push_decimal(out, mag);
        proof {
            assert(zeros(0) =~= Seq::<char>::empty());
        }
    }
}

/// Days since 1970-01-01 -> (year, month, day).
#[verifier::spinoff_prover]
#[verifier::rlimit(40)]
fn civil_from_days(days: i64) -> (r: (i64, i64, i64))
    requires
        -200_000_000_000_000 <= days <= 200_000_000_000_000,
    ensures
        r.0 as int == civil(days as int).0,
        r.1 as int == civil(days as int).1,
        r.2 as int == civil(days as int).2,
{
    let z = days + 719468;
    let shifted = z + 146097 * 2_000_000_000;
    let era = shifted / 146097 - 2_000_000_000;
    let doe = shifted % 146097;
    proof {
        vstd::arithmetic::div_mod::lemma_fundamental_div_mod(shifted as int, 146097);
        vstd::arithmetic::div_mod::lemma_fundamental_div_mod_converse(z as int, 146097, era as int, doe as int);
    }
    let yoe = (doe - doe / 1460 + doe / 36524 - doe / 146096) / 365;
    let doy = doe - (365 * yoe + yoe / 4 - yoe / 100);
    let mp = (5 * doy + 2) / 153;
    let d = doy - (153 * mp + 2) / 5 + 1;
    let m = if mp < 10 { mp + 3 } else { mp - 9 };
    (yoe + era * 400 + (if m <= 2 { 1 } else { 0 }), m, d)
}

/// `mtime` (seconds since the Unix epoch) as `YYYY-MM-DDTHH:MM:SSZ` in UTC;
/// empty for 0, the unknown time.
pub fn modified(mtime: i64) -> (r: String)
    ensures
        r@ == modified_text(mtime as int),
{
    let mut out = String::new();
    if mtime == 0 {
        return out;
    }
    let shifted: i128 = mtime as i128 + 86400 * 106_751_991_167_301;
    let days_u = shifted / 86400;
    let sod = (shifted % 86400) as i64;
    let days = (days_u - 106_751_991_167_301) as i64;
    proof {
        vstd::arithmetic::div_mod::lemma_fundamental_div_mod(shifted as int, 86400);
        vstd::arithmetic::div_mod::lemma_fundamental_div_mod_converse(mtime as int, 86400, days as int, sod as int);
    }
    let (y, m, d) = civil_from_days(days);
    push_padded(&mut out, y, 4);
    push_char(&mut out, '-');
    push_padded(&mut out, m, 2);
    push_char(&mut out, '-');
    push_padded(&mut out, d, 2);
    push_char(&mut out, 'T');
    push_padded(&mut out, sod / 3600, 2);
    push_char(&mut out, ':');
    push_padded(&mut out, (sod / 60) % 60, 2);
    push_char(&mut out, ':');
    push_padded(&mut out, sod % 60, 2);
    push_char(&mut out, 'Z');
    out
}

/// What an export covers.
#[derive(Clone, Copy, Debug, Default, PartialEq, Eq)]
pub struct ExportOptions {
    /// Depth relative to the export root (root = 0); `None` = unlimited.
    pub max_depth: Option<u32>,
    pub dirs_only: bool,
    pub hide_system: bool,
}

/// Node `c` gets a row: it is no hidden system entry, and a directory when
/// only directories are wanted.
pub open spec fn listed(t: Tree, c: int, opts: ExportOptions) -> bool {
    let f = t.node_view(c).flags;
    &&& !(opts.hide_system && f.has(EntryFlags::spec_system()))
    &&& (!opts.dirs_only || f.spec_is_dir())
}

/// `(size, id)` of each listed child of `id`.
pub open spec fn listed_pairs(t: Tree, id: int, opts: ExportOptions) -> Set<(u64, u32)> {
    Set::new(
        |p: (u64, u32)| t.children_of(id).contains(p.1) && listed(t, p.1 as int, opts) && p.0 == t.node_view(p.1 as int).size,
    )
}

/// `r` holds the pairs of `s`, size-descending, ties by ascending id.
pub open spec fn lists(r: Seq<(u64, u32)>, s: Set<(u64, u32)>) -> bool {
    &&& forall|x: (u64, u32)| r.contains(x) <==> s.contains(x)
    &&& forall|i: int, j: int| 0 <= i < j < r.len() ==> listed_before(#[trigger] r[i], #[trigger] r[j])
}

/// The listed children of `id` in export order: size-descending, ties by
/// ascending id.
pub open spec fn export_children(t: Tree, id: int, opts: ExportOptions) -> Seq<u32> {
    (choose|r: Seq<(u64, u32)>| lists(r, listed_pairs(t, id, opts))).map_values(|p: (u64, u32)| p.1)
}

/// A listing is unique.
pub proof fn lemma_lists_unique(a: Seq<(u64, u32)>, b: Seq<(u64, u32)>, s: Set<(u64, u32)>)
    requires
        lists(a, s),
        lists(b, s),
    ensures
        a == b,
    decreases a.len(),
{
    if a.len() == 0 {
        if b.len() > 0 {
            assert(b.contains(b[0]));
            assert(s.contains(b[0]));
            assert(a.contains(b[0]));
        }
        assert(a =~= b);
    } else {
        assert(a.contains(a[0]));
        assert(b.contains(a[0]));
        let j = choose|j: int| 0 <= j < b.len() && b[j] == a[0];
        if j > 0 {
            assert(b.contains(b[0]));
            assert(a.contains(b[0]));
            let i = choose|i: int| 0 <= i < a.len() && a[i] == b[0];
            assert(listed_before(b[0], b[j]));
            if i > 0 {
                assert(listed_before(a[0], a[i]));
            }
            assert(false);
        }
        let s2 = s.remove(a[0]);
        let a2 = a.drop_first();
        let b2 = b.drop_first();
        assert forall|x: (u64, u32)| a2.contains(x) <==> s2.contains(x) by {
            if a2.contains(x) {
                let i = choose|i: int| 0 <= i < a2.len() && a2[i] == x;
                assert(a[i + 1] == x);
                assert(listed_before(a[0], a[i + 1]));
                assert(a.contains(x));
            }
            if s2.contains(x) {
                assert(a.contains(x));
                let i = choose|i: int| 0 <= i < a.len() && a[i] == x;
                assert(i != 0);
                assert(a2[i - 1] == x);
            }
        }
        assert forall|x: (u64, u32)| b2.contains(x) <==> s2.contains(x) by {
            if b2.contains(x) {
                let i = choose|i: int| 0 <= i < b2.len() && b2[i] == x;
                assert(b[i + 1] == x);
                assert(listed_before(b[0], b[i + 1]));
                assert(b.contains(x));
            }
            if s2.contains(x) {
                assert(b.contains(x));
                let i = choose|i: int| 0 <= i < b.len() && b[i] == x;
                assert(i != 0);
                assert(b2[i - 1] == x);
            }
        }
        assert forall|i: int, k: int| 0 <= i < k < a2.len() implies listed_before(#[trigger] a2[i], #[trigger] a2[k]) by {
            assert(listed_before(a[i + 1], a[k + 1]));
        }
        assert forall|i: int, k: int| 0 <= i < k < b2.len() implies listed_before(#[trigger] b2[i], #[trigger] b2[k]) by {
            assert(listed_before(b[i + 1], b[k + 1]));
        }
        lemma_lists_unique(a2, b2, s2);
        assert(a =~= b) by {
            assert forall|i: int| 0 <= i < a.len() implies a[i] == b[i] by {
                if i > 0 {
                    assert(a[i] == a2[i - 1]);
                    assert(b[i] == b2[i - 1]);
                }
            }
        }
    }
}

/// `path`, then the separator unless `path` is empty or already ends with
/// it, then `name`.
pub open spec fn append_component(path: Seq<char>, name: Seq<char>, sep: char) -> Seq<char> {
    if path.len() > 0 && path.last() != sep {
        path.push(sep) + name
    } else {
        path + name
    }
}

/// The children of the node are exported: it is a directory above the
/// depth limit.
pub open spec fn expands(t: Tree, id: int, depth: nat, opts: ExportOptions) -> bool {
    &&& t.is_dir_at(id)
    &&& (opts.max_depth matches Some(m) ==> depth < m)
}

/// The rows (path, node) of the subtree at `id`, parent first, each
/// directory's listed children in export order. `fuel` counts the levels
/// left below `id`; no tree is deeper than its slot count.
pub open spec fn rows(
    t: Tree,
    id: int,
    parent: Seq<char>,
    depth: nat,
    opts: ExportOptions,
    sep: char,
    fuel: nat,
) -> Seq<(Seq<char>, int)>
    decreases fuel, 0nat,
{
    let path = append_component(parent, t.name_chars(id), sep);
    seq![(path, id)] + if expands(t, id, depth, opts) && fuel > 0 {
        rows_of(t, export_children(t, id, opts), path, depth + 1, opts, sep, (fuel - 1) as nat)
    } else {
        Seq::empty()
    }
}

/// The rows of the subtrees at `ids`, one after another.
pub open spec fn rows_of(
    t: Tree,
    ids: Seq<u32>,
    parent: Seq<char>,
    depth: nat,
    opts: ExportOptions,
    sep: char,
    fuel: nat,
) -> Seq<(Seq<char>, int)>
    decreases fuel, ids.len(),
{
    if ids.len() == 0 {
        Seq::empty()
    } else {
        rows(t, ids[0] as int, parent, depth, opts, sep, fuel) + rows_of(t, ids.drop_first(), parent, depth, opts, sep, fuel)
    }
}

/// The rows of an export from `root`.
pub open spec fn export_rows(t: Tree, root: int, opts: ExportOptions, sep: char) -> Seq<(Seq<char>, int)> {
    rows(t, root, Seq::empty(), 0, opts, sep, levels_below(t, root))
}

/// The levels a tree can have below `root`.
pub open spec fn levels_below(t: Tree, root: int) -> nat {
    if t.depth_of(root) <= t.slots() {
        (t.slots() - t.depth_of(root)) as nat
    } else {
        0
    }
}

pub open spec fn kind_chars(n: Node) -> Seq<char> {
    if n.flags.spec_is_dir() {
        seq!['d', 'i', 'r']
    } else {
        seq!['f', 'i', 'l', 'e']
    }
}

/// One CSV row: `path,kind,size,allocated,modified,items`.
pub open spec fn csv_row(path: Seq<char>, n: Node) -> Seq<char> {
    csv_text(path) + seq![','] + kind_chars(n) + seq![','] + decimal(n.size as nat) + seq![','] + decimal(n.allocated as nat)
        + seq![','] + modified_text(n.mtime as int) + seq![','] + decimal(n.items as nat) + seq!['\n']
}

/// One JSON row object, after the separator from the row before.
pub open spec fn json_row(first: bool, path: Seq<char>, n: Node) -> Seq<char> {
    (if first { seq!['\n'] } else { seq![',', '\n'] }) + "{\"path\":\""@ + json_text(path) + "\",\"kind\":\""@ + kind_chars(n)
        + "\",\"size\":"@ + decimal(n.size as nat) + ",\"allocated\":"@ + decimal(n.allocated as nat) + ",\"modified\":\""@
        + modified_text(n.mtime as int) + "\",\"items\":"@ + decimal(n.items as nat) + "}"@
}

/// The text of `rows`, one after another.
pub open spec fn body(t: Tree, rows: Seq<(Seq<char>, int)>, json: bool) -> Seq<char>
    decreases rows.len(),
{
    if rows.len() == 0 {
        Seq::empty()
    } else {
        let r = rows.last();
        body(t, rows.drop_last(), json) + if json {
            json_row(rows.len() == 1, r.0, t.node_view(r.1))
        } else {
            csv_row(r.0, t.node_view(r.1))
        }
    }
}

/// A pending stack entry: (node, depth, parent path, fuel).
pub type Pending = (int, nat, Seq<char>, nat);

/// The rows still owed by a stack of pending entries, top (last) first.
pub open spec fn pending(t: Tree, g: Seq<Pending>, opts: ExportOptions, sep: char) -> Seq<(Seq<char>, int)>
    decreases g.len(),
{
    if g.len() == 0 {
        Seq::empty()
    } else {
        let e = g.last();
        rows(t, e.0, e.2, e.1, opts, sep, e.3) + pending(t, g.drop_last(), opts, sep)
    }
}

/// Stack entries for `ids`, last first, so that `ids[0]` ends on top.
pub open spec fn kid_entries(ids: Seq<u32>, path: Seq<char>, depth: nat, fuel: nat) -> Seq<Pending> {
    Seq::new(ids.len(), |i: int| (ids[ids.len() - 1 - i] as int, depth, path, fuel))
}

proof fn lemma_pending_push(t: Tree, g: Seq<Pending>, ids: Seq<u32>, path: Seq<char>, depth: nat, opts: ExportOptions, sep: char, fuel: nat)
    ensures
        pending(t, g + kid_entries(ids, path, depth, fuel), opts, sep) == rows_of(t, ids, path, depth, opts, sep, fuel) + pending(t, g, opts, sep),
    decreases ids.len(),
{
    if ids.len() == 0 {
        assert(g + kid_entries(ids, path, depth, fuel) =~= g);
        assert(rows_of(t, ids, path, depth, opts, sep, fuel) =~= Seq::<(Seq<char>, int)>::empty());
    } else {
        let rest = ids.drop_first();
        lemma_pending_push(t, g, rest, path, depth, opts, sep, fuel);
        let whole = g + kid_entries(ids, path, depth, fuel);
        assert(whole.drop_last() =~= g + kid_entries(rest, path, depth, fuel));
        assert(whole.last() == (ids[0] as int, depth, path, fuel));
    }
}

proof fn lemma_body_push(t: Tree, rows: Seq<(Seq<char>, int)>, r: (Seq<char>, int), json: bool)
    ensures
        body(t, rows.push(r), json) == body(t, rows, json) + if json {
            json_row(rows.len() == 0, r.0, t.node_view(r.1))
        } else {
            csv_row(r.0, t.node_view(r.1))
        },
{
    assert(rows.push(r).drop_last() =~= rows);
}

fn keep(tree: &Tree, id: NodeId, opts: &ExportOptions) -> (r: bool)
    requires
        id < tree.slots(),
    ensures
        r == listed(*tree, id as int, *opts),
{
    let node = tree.node(id);
    if opts.hide_system && node.flags.contains(EntryFlags::system()) {
        return false;
    }
    !opts.dirs_only || node.is_dir()
}

/// The listed children of directory `id`, in export order.
fn ordered_children(tree: &Tree, id: NodeId, opts: &ExportOptions) -> (r: Vec<u32>)
    requires
        tree.wf(),
        id < tree.slots(),
        tree.is_dir_at(id as int),
    ensures
        r@ == export_children(*tree, id as int, *opts),
        forall|i: int| 0 <= i < r@.len() ==> (#[trigger] r@[i]) < tree.slots() && tree.children_of(id as int).contains(r@[i]),
{
    proof {
        tree.lemma_dir_depth(id as int);
    }
    let ghost ks = tree.children_of(id as int);
    let mut hits: Vec<(u64, u32)> = Vec::new();
    let mut it = tree.children(id);
    let ghost mut seen: int = 0;
    loop
        invariant
            tree.wf(),
            it.wf(),
            it.tree_view() == *tree,
            0 <= seen <= ks.len(),
            it.remaining() == ks.subrange(seen, ks.len() as int),
            ks == tree.children_of(id as int),
            ks.no_duplicates(),
            forall|i: int| 0 <= i < ks.len() ==> 0 < #[trigger] ks[i] < tree.slots(),
            forall|x: (u64, u32)| hits@.contains(x) <==> (exists|i: int| 0 <= i < seen && ks[i] == x.1) && listed(*tree, x.1 as int, *opts)
                && x.0 == tree.node_view(x.1 as int).size,
            forall|a: int, b: int| 0 <= a < hits@.len() && 0 <= b < hits@.len() && a != b ==> hits@[a].1 != hits@[b].1,
            forall|a: int| 0 <= a < hits@.len() ==> exists|i: int| 0 <= i < seen && ks[i] == (#[trigger] hits@[a]).1,
        ensures
            seen == ks.len(),
            forall|x: (u64, u32)| hits@.contains(x) <==> (exists|i: int| 0 <= i < seen && ks[i] == x.1) && listed(*tree, x.1 as int, *opts)
                && x.0 == tree.node_view(x.1 as int).size,
            forall|a: int, b: int| 0 <= a < hits@.len() && 0 <= b < hits@.len() && a != b ==> hits@[a].1 != hits@[b].1,
        decreases ks.len() - seen,
    {
        match it.next() {
            None => {
                break;
            },
            Some(c) => {
                proof {
                    assert(ks[seen] == c);
                }
                let ghost before = hits@;
                if keep(tree, c, opts) {
                    let size = tree.node(c).size;
                    hits.push((size, c));
                    proof {
                        assert forall|a: int| 0 <= a < before.len() implies before[a].1 != c by {
                            let i = choose|i: int| 0 <= i < seen && ks[i] == (#[trigger] before[a]).1;
                            assert(ks[i] != ks[seen]);
                        }
                    }
                }
                proof {
                    assert forall|x: (u64, u32)| hits@.contains(x) <==> (exists|i: int| 0 <= i < seen + 1 && ks[i] == x.1) && listed(
                        *tree,
                        x.1 as int,
                        *opts,
                    ) && x.0 == tree.node_view(x.1 as int).size by {
                        if hits@.contains(x) && !before.contains(x) {
                            assert(x == (tree.node_view(c as int).size, c));
                            assert(ks[seen] == x.1);
                        }
                        if (exists|i: int| 0 <= i < seen + 1 && ks[i] == x.1) && listed(*tree, x.1 as int, *opts)
                            && x.0 == tree.node_view(x.1 as int).size {
                            let i = choose|i: int| 0 <= i < seen + 1 && ks[i] == x.1;
                            if i == seen {
                                assert(hits@.last() == x);
                                assert(hits@.contains(x));
                            } else {
                                assert(before.contains(x));
                                let a = choose|a: int| 0 <= a < before.len() && before[a] == x;
                                assert(hits@[a] == x);
                            }
                        }
                    }
                    assert forall|a: int| 0 <= a < hits@.len() implies exists|i: int| 0 <= i < seen + 1 && ks[i] == (#[trigger] hits@[a]).1 by {
                        if a < before.len() {
                            assert(hits@[a] == before[a]);
                        } else {
                            assert(ks[seen] == hits@[a].1);
                        }
                    }
                    seen = seen + 1;
                }
            },
        }
    }
    let n = hits.len();
    let sorted = top_hits(&hits, n);
    let ghost s = listed_pairs(*tree, id as int, *opts);
    proof {
        assert(hits@.no_duplicates());
        assert forall|x: (u64, u32)| hits@.contains(x) <==> s.contains(x) by {
            if s.contains(x) {
                assert(ks.contains(x.1));
                let i = choose|i: int| 0 <= i < ks.len() && ks[i] == x.1;
            }
        }
        sorted@.unique_seq_to_set();
        hits@.unique_seq_to_set();
        assert(sorted@.to_set().subset_of(hits@.to_set()));
        vstd::set_lib::lemma_subset_equality(sorted@.to_set(), hits@.to_set());
        assert forall|x: (u64, u32)| sorted@.contains(x) <==> s.contains(x) by {
            if s.contains(x) {
                assert(hits@.to_set().contains(x));
                assert(sorted@.to_set().contains(x));
            }
        }
        assert(lists(sorted@, s));
        let pick = choose|r: Seq<(u64, u32)>| lists(r, s);
        lemma_lists_unique(sorted@, pick, s);
    }
    let mut out: Vec<u32> = Vec::new();
    let mut i: usize = 0;
    while i < sorted.len()
        invariant
            i <= sorted@.len(),
            out@ == sorted@.subrange(0, i as int).map_values(|p: (u64, u32)| p.1),
        decreases sorted@.len() - i,
    {
        out.push(sorted[i].1);
        proof {
            assert(sorted@.subrange(0, i + 1).map_values(|p: (u64, u32)| p.1) =~= sorted@.subrange(0, i as int).map_values(
                |p: (u64, u32)| p.1,
            ).push(sorted@[i as int].1));
        }
        i = i + 1;
    }
    proof {
        assert(sorted@.subrange(0, sorted@.len() as int) =~= sorted@);
        assert forall|k: int| 0 <= k < out@.len() implies (#[trigger] out@[k]) < tree.slots() && tree.children_of(id as int).contains(
            out@[k],
        ) by {
            assert(sorted@.contains(sorted@[k]));
            assert(s.contains(sorted@[k]));
            let j = choose|j: int| 0 <= j < ks.len() && ks[j] == out@[k];
        }
    }
    out
}

/// The row count as a `u64` (it saturates).
pub open spec fn count_of(n: nat) -> u64 {
    if n > u64::MAX { u64::MAX } else { n as u64 }
}

pub open spec fn csv_header() -> Seq<char> {
    "path,kind,size,allocated,modified,items\n"@
}

/// Appends one JSON row.
#[verifier::spinoff_prover]
#[verifier::rlimit(40)]
fn push_json_row(out: &mut String, first: bool, path: &Vec<char>, node: &Node)
    ensures
        final(out)@ == old(out)@ + json_row(first, path@, *node),
{
    let ghost start = out@;
    proof {
        reveal_strlit("dir");
        reveal_strlit("file");
    }
    let kind = if node.is_dir() { "dir" } else { "file" };
    if first {
        push_char(out, '\n');
    } else {
        push_char(out, ',');
        push_char(out, '\n');
    }
    let ghost s1 = out@;
    push_str(out, "{\"path\":\"");
    push_json_escaped(out, path);
    push_str(out, "\",\"kind\":\"");
    push_str(out, kind);
    let ghost s2 = out@;
    push_str(out, "\",\"size\":");
    push_decimal(out, node.size);
    push_str(out, ",\"allocated\":");
    push_decimal(out, node.allocated);
    let ghost s3 = out@;
    push_str(out, ",\"modified\":\"");
    let m = modified(node.mtime);
    push_str(out, m.as_str());
    push_str(out, "\",\"items\":");
    push_decimal(out, node.items as u64);
    push_str(out, "}");
    proof {
        assert(s2 =~= s1 + "{\"path\":\""@ + json_text(path@) + "\",\"kind\":\""@ + kind_chars(*node));
        assert(s3 =~= s2 + "\",\"size\":"@ + decimal(node.size as nat) + ",\"allocated\":"@ + decimal(node.allocated as nat));
        assert(out@ =~= s3 + ",\"modified\":\""@ + modified_text(node.mtime as int) + "\",\"items\":"@ + decimal(node.items as nat) + "}"@);
        assert(out@ =~= start + json_row(first, path@, *node));
    }
}

/// Appends one CSV row.
#[verifier::spinoff_prover]
#[verifier::rlimit(40)]
fn push_csv_row(out: &mut String, path: &Vec<char>, node: &Node)
    ensures
        final(out)@ == old(out)@ + csv_row(path@, *node),
{
    let ghost start = out@;
    proof {
        reveal_strlit("dir");
        reveal_strlit("file");
    }
    let kind = if node.is_dir() { "dir" } else { "file" };
    push_csv_field(out, path);
    push_char(out, ',');
    push_str(out, kind);
    push_char(out, ',');
    let ghost s1 = out@;
    push_decimal(out, node.size);
    push_char(out, ',');
    push_decimal(out, node.allocated);
    push_char(out, ',');
    let ghost s2 = out@;
    let m = modified(node.mtime);
    push_str(out, m.as_str());
    push_char(out, ',');
    push_decimal(out, node.items as u64);
    push_char(out, '\n');
    proof {
        assert(s1 =~= start + csv_text(path@) + seq![','] + kind_chars(*node) + seq![',']);
        assert(s2 =~= s1 + decimal(node.size as nat) + seq![','] + decimal(node.allocated as nat) + seq![',']);
        assert(out@ =~= s2 + modified_text(node.mtime as int) + seq![','] + decimal(node.items as nat) + seq!['\n']);
        assert(out@ =~= start + csv_row(path@, *node));
    }
}

/// Appends one row's text.
fn push_row(out: &mut String, json: bool, first: bool, path: &Vec<char>, node: &Node)
    ensures
        final(out)@ == old(out)@ + if json { json_row(first, path@, *node) } else { csv_row(path@, *node) },
{
    if json {
        push_json_row(out, first, path, node);
    } else {
        push_csv_row(out, path, node);
    }
}

/// The exec stack mirrors the pending entries, each entry's parent path
/// is a prefix of the shared path buffer, and the fuel matches the depth.
#[verifier::opaque]
spec fn stack_ok(t: Tree, st: Seq<(u32, u32, usize)>, g: Seq<Pending>, path: Seq<char>, fuel0: nat) -> bool {
    &&& st.len() == g.len()
    &&& forall|k: int| 0 <= k < g.len() ==> (#[trigger] st[k]).0 as int == g[k].0 && st[k].1 as nat == g[k].1
        && st[k].2 as int == g[k].2.len() && 0 <= g[k].0 < t.slots()
    &&& forall|k: int| 0 <= k < g.len() ==> (#[trigger] g[k]).2.len() <= path.len() && path.subrange(0, g[k].2.len() as int) == g[k].2
    &&& forall|a: int, b: int| 0 <= a <= b < g.len() ==> (#[trigger] g[a]).2.len() <= (#[trigger] g[b]).2.len()
    &&& forall|k: int| 0 <= k < g.len() ==> (#[trigger] g[k]).1 + g[k].3 == fuel0
    &&& forall|k: int| 0 <= k < g.len() && t.is_dir_at((#[trigger] g[k]).0) ==> g[k].3 == t.slots() - t.depth_of(g[k].0)
}

proof fn lemma_pop(t: Tree, st: Seq<(u32, u32, usize)>, g: Seq<Pending>, path: Seq<char>, p2: Seq<char>, fuel0: nat)
    requires
        stack_ok(t, st, g, path, fuel0),
        g.len() > 0,
        p2.len() >= g.last().2.len(),
        p2.subrange(0, g.last().2.len() as int) == g.last().2,
    ensures
        stack_ok(t, st.drop_last(), g.drop_last(), p2, fuel0),
        forall|k: int| 0 <= k < g.len() - 1 ==> (#[trigger] g.drop_last()[k]).2.len() <= g.last().2.len(),
        st.len() == g.len(),
        st.last().0 as int == g.last().0,
        st.last().1 as nat == g.last().1,
        st.last().2 as int == g.last().2.len(),
        0 <= g.last().0 < t.slots(),
        path.subrange(0, g.last().2.len() as int) == g.last().2,
        g.last().2.len() <= path.len(),
        g.last().1 + g.last().3 == fuel0,
        t.is_dir_at(g.last().0) ==> g.last().3 == t.slots() - t.depth_of(g.last().0),
{
    reveal(stack_ok);
    let n = g.len() - 1;
    assert(g[n] == g.last());
    assert(st[n] == st.last());
    let g1 = g.drop_last();
    let e = g.last();
    assert forall|k: int| 0 <= k < g1.len() implies (#[trigger] g1[k]).2.len() <= p2.len() && p2.subrange(0, g1[k].2.len() as int) == g1[k].2 by {
        assert(g1[k] == g[k]);
        assert(g[k].2.len() <= g[n].2.len());
        assert(p2.subrange(0, g1[k].2.len() as int) =~= e.2.subrange(0, g1[k].2.len() as int));
        assert(path.subrange(0, g1[k].2.len() as int) =~= path.subrange(0, e.2.len() as int).subrange(0, g1[k].2.len() as int));
    }
    assert forall|k: int| 0 <= k < g1.len() implies (#[trigger] st.drop_last()[k]).0 as int == g1[k].0 && st.drop_last()[k].1 as nat
        == g1[k].1 && st.drop_last()[k].2 as int == g1[k].2.len() && 0 <= g1[k].0 < t.slots() by {
        assert(g1[k] == g[k]);
        assert(st.drop_last()[k] == st[k]);
    }
    assert forall|a: int, b: int| 0 <= a <= b < g1.len() implies (#[trigger] g1[a]).2.len() <= (#[trigger] g1[b]).2.len() by {
        assert(g1[a] == g[a]);
        assert(g1[b] == g[b]);
    }
    assert forall|k: int| 0 <= k < g1.len() implies (#[trigger] g1[k]).1 + g1[k].3 == fuel0 by {
        assert(g1[k] == g[k]);
    }
    assert forall|k: int| 0 <= k < g1.len() && t.is_dir_at((#[trigger] g1[k]).0) implies g1[k].3 == t.slots() - t.depth_of(g1[k].0) by {
        assert(g1[k] == g[k]);
    }
    assert forall|k: int| 0 <= k < g.len() - 1 implies (#[trigger] g.drop_last()[k]).2.len() <= g.last().2.len() by {
        assert(g1[k] == g[k]);
    }
}

proof fn lemma_push(
    t: Tree,
    st0: Seq<(u32, u32, usize)>,
    g1: Seq<Pending>,
    path: Seq<char>,
    kids: Seq<u32>,
    d: nat,
    f: nat,
    fuel0: nat,
    st: Seq<(u32, u32, usize)>,
)
    requires
        stack_ok(t, st0, g1, path, fuel0),
        forall|k: int| 0 <= k < g1.len() ==> (#[trigger] g1[k]).2.len() <= path.len(),
        d + f == fuel0,
        d <= u32::MAX,
        forall|i: int| 0 <= i < kids.len() ==> (#[trigger] kids[i]) < t.slots(),
        forall|i: int| 0 <= i < kids.len() && t.is_dir_at(#[trigger] kids[i] as int) ==> f == t.slots() - t.depth_of(kids[i] as int),
        path.len() <= usize::MAX,
        st.len() == st0.len() + kids.len(),
        forall|k: int| 0 <= k < st0.len() ==> st[k] == st0[k],
        forall|k: int| 0 <= k < kids.len() ==> #[trigger] st[st0.len() + k] == (kids[kids.len() - 1 - k], d as u32, path.len() as usize),
    ensures
        stack_ok(t, st, g1 + kid_entries(kids, path, d, f), path, fuel0),
        st.len() == g1.len() + kids.len(),
{
    reveal(stack_ok);
    let g = g1 + kid_entries(kids, path, d, f);
    assert forall|k: int| 0 <= k < g.len() implies (#[trigger] st[k]).0 as int == g[k].0 && st[k].1 as nat == g[k].1
        && st[k].2 as int == g[k].2.len() && 0 <= g[k].0 < t.slots() by {
        if k >= g1.len() {
            let i = k - g1.len();
            assert(st[st0.len() + i] == (kids[kids.len() - 1 - i], d as u32, path.len() as usize));
            assert(kids[kids.len() - 1 - i] < t.slots());
        } else {
            assert(st[k] == st0[k]);
        }
    }
    assert forall|k: int| 0 <= k < g.len() implies (#[trigger] g[k]).2.len() <= path.len() && path.subrange(0, g[k].2.len() as int) == g[k].2 by {
        if k >= g1.len() {
            assert(path.subrange(0, path.len() as int) =~= path);
        }
    }
    assert forall|a: int, b: int| 0 <= a <= b < g.len() implies (#[trigger] g[a]).2.len() <= (#[trigger] g[b]).2.len() by {
        if b < g1.len() {
            assert(g1[a].2.len() <= g1[b].2.len());
        } else if a < g1.len() {
            assert(g1[a].2.len() <= path.len());
        }
    }
    assert forall|k: int| 0 <= k < g.len() && t.is_dir_at((#[trigger] g[k]).0) implies g[k].3 == t.slots() - t.depth_of(g[k].0) by {
        if k >= g1.len() {
            let i = k - g1.len();
            assert(g[k].0 == kids[kids.len() - 1 - i] as int);
        }
    }
}

/// Appends the rows of the export from `root`, depth first with an explicit
/// stack: each pop rebuilds the node's path from its parent's in the one
/// shared buffer.
#[verifier::spinoff_prover]
#[verifier::rlimit(100)]
fn walk(tree: &Tree, root: NodeId, opts: &ExportOptions, sep: char, json: bool, out: &mut String) -> (count: u64)
    requires
        tree.wf(),
        root < tree.slots(),
    ensures
        final(out)@ == old(out)@ + body(*tree, export_rows(*tree, root as int, *opts, sep), json),
        count == count_of(export_rows(*tree, root as int, *opts, sep).len()),
{
    let ghost t = *tree;
    let ghost fuel0: nat = levels_below(t, root as int);
    let ghost start = out@;
    let ghost all = export_rows(t, root as int, *opts, sep);
    proof {
        t.lemma_slots_bound();
        if t.is_dir_at(root as int) {
            t.lemma_dir_depth(root as int);
        }
    }
    let mut path: Vec<char> = Vec::new();
    let mut stack: Vec<(u32, u32, usize)> = Vec::new();
    stack.push((root, 0, 0));
    let ghost mut g: Seq<Pending> = seq![(root as int, 0nat, Seq::<char>::empty(), fuel0)];
    let ghost mut done: Seq<(Seq<char>, int)> = Seq::empty();
    let mut count: u64 = 0;
    proof {
        assert(pending(t, Seq::<Pending>::empty(), *opts, sep) =~= Seq::<(Seq<char>, int)>::empty());
        assert(g.drop_last() =~= Seq::<Pending>::empty());
        assert(pending(t, g, *opts, sep) =~= rows(t, root as int, Seq::empty(), 0, *opts, sep, fuel0));
        assert(done + pending(t, g, *opts, sep) =~= all);
        assert(stack_ok(t, stack@, g, path@, fuel0)) by {
            reveal(stack_ok);
            assert(g[0].2.len() == 0);
            assert(path@.subrange(0, 0) =~= Seq::<char>::empty());
        }
    }
    while stack.len() > 0
        invariant
            tree.wf(),
            t == *tree,
            t.slots() <= u32::MAX,
            fuel0 <= t.slots(),
            stack_ok(t, stack@, g, path@, fuel0),
            stack@.len() == g.len(),
            done + pending(t, g, *opts, sep) == all,
            all == export_rows(t, root as int, *opts, sep),
            out@ == start + body(t, done, json),
            count == count_of(done.len()),
        decreases pending(t, g, *opts, sep).len(),
    {
        let ghost st_before = stack@;
        let ghost path_before = path@;
        let ghost e = g.last();
        let ghost g1 = g.drop_last();
        let ghost pend_old = pending(t, g, *opts, sep);
        let top = stack.pop().unwrap();
        let (id, depth, plen) = top;
        proof {
            assert(st_before.last() == top);
            assert(e.2.subrange(0, e.2.len() as int) =~= e.2);
            lemma_pop(t, st_before, g, path_before, e.2, fuel0);
            assert(path_before.subrange(0, e.2.len() as int) == e.2);
        }
        path.truncate(plen);
        proof {
            assert(path@ == e.2);
        }
        if path.len() > 0 && path[path.len() - 1] != sep {
            path.push(sep);
        }
        let name = chars_of(tree.name(id));
        let mut q: usize = 0;
        let ghost stem = path@;
        while q < name.len()
            invariant
                q <= name@.len(),
                path@ == stem + name@.subrange(0, q as int),
            decreases name@.len() - q,
        {
            path.push(name[q]);
            proof {
                assert(stem + name@.subrange(0, q + 1) =~= (stem + name@.subrange(0, q as int)).push(name@[q as int]));
            }
            q = q + 1;
        }
        let ghost here = append_component(e.2, t.name_chars(e.0), sep);
        proof {
            assert(name@.subrange(0, name@.len() as int) =~= name@);
            assert(path@ =~= here);
            assert(here.subrange(0, e.2.len() as int) =~= e.2);
            lemma_pop(t, st_before, g, path_before, here, fuel0);
        }
        let node = tree.node(id);
        proof {
            assert(pending(t, g, *opts, sep) == rows(t, e.0, e.2, e.1, *opts, sep, e.3) + pending(t, g1, *opts, sep));
            lemma_body_push(t, done, (here, e.0), json);
        }
        push_row(out, json, count == 0, &path, node);
        if count < u64::MAX {
            count = count + 1;
        }
        let ghost done0 = done;
        proof {
            done = done.push((here, e.0));
            g = g1;
        }
        let expand = node.is_dir() && match opts.max_depth {
            None => true,
            Some(m) => depth < m,
        };
        let ghost kid_rows = if expands(t, e.0, e.1, *opts) && e.3 > 0 {
            rows_of(t, export_children(t, e.0, *opts), here, e.1 + 1, *opts, sep, (e.3 - 1) as nat)
        } else {
            Seq::empty()
        };
        proof {
            assert(rows(t, e.0, e.2, e.1, *opts, sep, e.3) == seq![(here, e.0)] + kid_rows);
            assert(pend_old == seq![(here, e.0)] + kid_rows + pending(t, g1, *opts, sep));
            assert(done == done0.push((here, e.0)));
        }
        if expand {
            proof {
                t.lemma_dir_depth(id as int);
            }
            let kids = ordered_children(tree, id, opts);
            let plen2 = path.len();
            let ghost stack0 = stack@;
            let n = kids.len();
            let mut j: usize = n;
            while j > 0
                invariant
                    j <= n,
                    n == kids@.len(),
                    stack@.len() == stack0.len() + (n - j),
                    forall|k: int| 0 <= k < stack0.len() ==> stack@[k] == stack0[k],
                    forall|k: int| 0 <= k < n - j ==> #[trigger] stack@[stack0.len() + k] == (kids@[n - 1 - k], (depth + 1) as u32, plen2),
                    depth + 1 <= u32::MAX,
                decreases j,
            {
                j = j - 1;
                stack.push((kids[j], depth + 1, plen2));
            }
            proof {
                assert forall|i: int| 0 <= i < kids@.len() && t.is_dir_at(#[trigger] kids@[i] as int) implies (e.3 - 1) as nat == t.slots()
                    - t.depth_of(kids@[i] as int) by {
                    let c = kids@[i];
                    assert(t.children_of(e.0).contains(c));
                    let x = choose|x: int| 0 <= x < t.children_of(e.0).len() && t.children_of(e.0)[x] == c;
                }
                assert forall|k: int| 0 <= k < g1.len() implies (#[trigger] g1[k]).2.len() <= here.len() by {
                    assert(g1[k].2.len() <= e.2.len());
                }
                lemma_push(t, stack0, g1, here, kids@, e.1 + 1, (e.3 - 1) as nat, fuel0, stack@);
                lemma_pending_push(t, g1, kids@, here, e.1 + 1, *opts, sep, (e.3 - 1) as nat);
                g = g1 + kid_entries(kids@, here, e.1 + 1, (e.3 - 1) as nat);
                assert(kids@ == export_children(t, e.0, *opts));
                assert(pending(t, g, *opts, sep) == kid_rows + pending(t, g1, *opts, sep));
                assert(done + pending(t, g, *opts, sep) =~= done0 + pend_old);
            }
        } else {
            proof {
                assert(!(expands(t, e.0, e.1, *opts) && e.3 > 0));
                assert(kid_rows =~= Seq::<(Seq<char>, int)>::empty());
                assert(done + pending(t, g, *opts, sep) =~= done0 + pend_old);
            }
        }
    }
    proof {
        assert(g.len() == 0);
        assert(done =~= all);
    }
    count
}

/// The CSV text of an export: the header, then one row per node.
pub open spec fn csv_export(t: Tree, root: int, opts: ExportOptions, sep: char) -> Seq<char> {
    csv_header() + body(t, export_rows(t, root, opts, sep), false)
}

/// The JSON text of an export: one flat array of row objects.
pub open spec fn json_export(t: Tree, root: int, opts: ExportOptions, sep: char) -> Seq<char> {
    "["@ + body(t, export_rows(t, root, opts, sep), true) + "\n]\n"@
}

/// `path,kind,size,allocated,modified,items` — one row per node, children
/// size-descending — appended to `out`, with `sep` between path
/// components. Returns the row count.
pub fn write_csv_with(tree: &Tree, root: NodeId, opts: &ExportOptions, sep: char, out: &mut String) -> (rows: u64)
    requires
        tree.wf(),
        root < tree.slots(),
    ensures
        final(out)@ == old(out)@ + csv_export(*tree, root as int, *opts, sep),
        rows == count_of(export_rows(*tree, root as int, *opts, sep).len()),
{
    let ghost start = out@;
    push_str(out, "path,kind,size,allocated,modified,items\n");
    let ghost mid = out@;
    let rows = walk(tree, root, opts, sep, false, out);
    proof {
        assert(out@ =~= start + csv_export(*tree, root as int, *opts, sep));
    }
    rows
}

/// One flat JSON array of row objects (the CSV's fields), appended to
/// `out`, with `sep` between path components. Returns the row count.
pub fn write_json_with(tree: &Tree, root: NodeId, opts: &ExportOptions, sep: char, out: &mut String) -> (rows: u64)
    requires
        tree.wf(),
        root < tree.slots(),
    ensures
        final(out)@ == old(out)@ + json_export(*tree, root as int, *opts, sep),
        rows == count_of(export_rows(*tree, root as int, *opts, sep).len()),
{
    let ghost start = out@;
    push_str(out, "[");
    let rows = walk(tree, root, opts, sep, true, out);
    push_str(out, "\n]\n");
    proof {
        assert(out@ =~= start + json_export(*tree, root as int, *opts, sep));
    }
    rows
}

/// The CSV export with the platform's path separator (`/` or `\`).
pub fn write_csv(tree: &Tree, root: NodeId, opts: &ExportOptions, out: &mut String) -> (rows: u64)
    requires
        tree.wf(),
        root < tree.slots(),
    ensures
        exists|sep: char| (sep == '/' || sep == '\\') && final(out)@ == old(out)@ + csv_export(*tree, root as int, *opts, sep)
            && rows == count_of(export_rows(*tree, root as int, *opts, sep).len()),
{
    let sep = crate::tree::main_separator();
    write_csv_with(tree, root, opts, sep, out)
}

/// The JSON export with the platform's path separator (`/` or `\`).
pub fn write_json(tree: &Tree, root: NodeId, opts: &ExportOptions, out: &mut String) -> (rows: u64)
    requires
        tree.wf(),
        root < tree.slots(),
    ensures
        exists|sep: char| (sep == '/' || sep == '\\') && final(out)@ == old(out)@ + json_export(*tree, root as int, *opts, sep)
            && rows == count_of(export_rows(*tree, root as int, *opts, sep).len()),
{
    let sep = crate::tree::main_separator();
    write_json_with(tree, root, opts, sep, out)
}

// ----- exported paths are tree paths -----

proof fn lemma_to_seq_distinct(s: Set<(u64, u32)>)
    requires
        s.finite(),
    ensures
        s.to_seq().no_duplicates(),
        forall|x: (u64, u32)| s.to_seq().contains(x) <==> s.contains(x),
    decreases s.len(),
{
    broadcast use vstd::set::group_set_axioms;
    if s.len() > 0 {
        let x = s.choose();
        let rest = s.remove(x);
        lemma_to_seq_distinct(rest);
        let q = s.to_seq();
        let rq = rest.to_seq();
        assert(q == Seq::<(u64, u32)>::empty().push(x) + rq);
        assert forall|y: (u64, u32)| q.contains(y) <==> s.contains(y) by {
            if q.contains(y) {
                let k = choose|k: int| 0 <= k < q.len() && q[k] == y;
                if k > 0 {
                    assert(rq[k - 1] == y);
                }
            }
            if s.contains(y) {
                if y == x {
                    assert(q[0] == x);
                } else {
                    assert(rest.contains(y));
                    let k = choose|k: int| 0 <= k < rq.len() && rq[k] == y;
                    assert(q[k + 1] == y);
                }
            }
        }
        assert forall|i: int, j: int| 0 <= i < j < q.len() implies q[i] != q[j] by {
            if i == 0 {
                assert(q[j] == rq[j - 1]);
                assert(rq.contains(q[j]));
            } else {
                assert(q[i] == rq[i - 1] && q[j] == rq[j - 1]);
            }
        }
    } else {
        assert(s.to_seq() =~= Seq::<(u64, u32)>::empty());
    }
}

/// Every finite set of (size, id) pairs has its listing.
proof fn lemma_listing_exists(s: Set<(u64, u32)>)
    requires
        s.finite(),
    ensures
        exists|r: Seq<(u64, u32)>| lists(r, s),
{
    broadcast use vstd::seq_lib::group_to_multiset_ensures;
    let leq = |a: (u64, u32), b: (u64, u32)| listed_before(a, b) || a == b;
    assert(vstd::relations::total_ordering(leq)) by {
        assert(vstd::relations::reflexive(leq));
        assert(vstd::relations::antisymmetric(leq));
        assert(vstd::relations::transitive(leq));
        assert(vstd::relations::strongly_connected(leq));
    }
    let q = s.to_seq();
    lemma_to_seq_distinct(s);
    q.lemma_sort_by_ensures(leq);
    let r = q.sort_by(leq);
    q.lemma_multiset_has_no_duplicates();
    assert forall|x: (u64, u32)| r.to_multiset().contains(x) implies r.to_multiset().count(x) == 1 by {
        assert(q.to_multiset().contains(x));
    }
    r.lemma_multiset_has_no_duplicates_conv();
    assert forall|x: (u64, u32)| r.contains(x) <==> s.contains(x) by {
        assert(r.contains(x) <==> r.to_multiset().count(x) > 0);
        assert(q.contains(x) <==> q.to_multiset().count(x) > 0);
    }
    assert forall|i: int, j: int| 0 <= i < j < r.len() implies listed_before(#[trigger] r[i], #[trigger] r[j]) by {
        assert(leq(r[i], r[j]));
    }
    assert(lists(r, s));
}

/// The exported children of a live node are among its children.
proof fn lemma_export_children_are_children(t: Tree, id: int, opts: ExportOptions)
    ensures
        forall|j: int| 0 <= j < export_children(t, id, opts).len() ==> t.children_of(id).contains(#[trigger] export_children(t, id, opts)[j]),
{
    let s = listed_pairs(t, id, opts);
    let f = |c: u32| (t.node_view(c as int).size, c);
    let all = t.children_of(id).to_set().map(f);
    vstd::seq_lib::seq_to_set_is_finite(t.children_of(id));
    t.children_of(id).to_set().lemma_map_finite(f);
    assert(s.subset_of(all)) by {
        assert forall|p: (u64, u32)| s.contains(p) implies all.contains(p) by {
            assert(t.children_of(id).to_set().contains(p.1));
            assert(f(p.1) == p);
        }
    }
    vstd::set_lib::lemma_set_subset_finite(all, s);
    lemma_listing_exists(s);
    let r = choose|r: Seq<(u64, u32)>| lists(r, s);
    assert forall|j: int| 0 <= j < export_children(t, id, opts).len() implies t.children_of(id).contains(#[trigger] export_children(t, id, opts)[j]) by {
        assert(r.contains(r[j]));
        assert(s.contains(r[j]));
    }
}

proof fn lemma_rows_paths(t: Tree, id: int, parent: Seq<char>, depth: nat, opts: ExportOptions, sep: char, fuel: nat)
    requires
        t.wf(),
        t.live(id),
        append_component(parent, t.name_chars(id), sep) == t.path_view(id, sep),
        t.path_view(id, sep).len() > 0,
    ensures
        forall|k: int| 0 <= k < rows(t, id, parent, depth, opts, sep, fuel).len() ==> {
            let row = #[trigger] rows(t, id, parent, depth, opts, sep, fuel)[k];
            &&& t.live(row.1)
            &&& row.0 == t.path_view(row.1, sep)
        },
    decreases fuel, 0nat,
{
    let path = append_component(parent, t.name_chars(id), sep);
    let rs = rows(t, id, parent, depth, opts, sep, fuel);
    if expands(t, id, depth, opts) && fuel > 0 {
        let ids = export_children(t, id, opts);
        lemma_export_children_are_children(t, id, opts);
        lemma_rows_of_paths(t, id, ids, path, depth + 1, opts, sep, (fuel - 1) as nat);
        let rest = rows_of(t, ids, path, depth + 1, opts, sep, (fuel - 1) as nat);
        assert forall|k: int| 0 <= k < rs.len() implies {
            let row = #[trigger] rs[k];
            &&& t.live(row.1)
            &&& row.0 == t.path_view(row.1, sep)
        } by {
            if k > 0 {
                assert(rs[k] == rest[k - 1]);
            }
        }
    }
}

proof fn lemma_rows_of_paths(t: Tree, p: int, ids: Seq<u32>, parent: Seq<char>, depth: nat, opts: ExportOptions, sep: char, fuel: nat)
    requires
        t.wf(),
        t.live(p),
        parent == t.path_view(p, sep),
        parent.len() > 0,
        forall|j: int| 0 <= j < ids.len() ==> t.children_of(p).contains(#[trigger] ids[j]),
    ensures
        forall|k: int| 0 <= k < rows_of(t, ids, parent, depth, opts, sep, fuel).len() ==> {
            let row = #[trigger] rows_of(t, ids, parent, depth, opts, sep, fuel)[k];
            &&& t.live(row.1)
            &&& row.0 == t.path_view(row.1, sep)
        },
    decreases fuel, ids.len(),
{
    if ids.len() > 0 {
        let c = ids[0] as int;
        assert(t.children_of(p).contains(ids[0]));
        let i = choose|i: int| 0 <= i < t.children_of(p).len() && t.children_of(p)[i] == ids[0];
        t.lemma_child_path(p, i, sep);
        let name = t.name_chars(c);
        assert(append_component(parent, name, sep) == crate::tree::join_path(parent, name, sep));
        assert(t.path_view(c, sep).len() > 0);
        lemma_rows_paths(t, c, parent, depth, opts, sep, fuel);
        let tail = ids.drop_first();
        assert forall|j: int| 0 <= j < tail.len() implies t.children_of(p).contains(#[trigger] tail[j]) by {
            assert(tail[j] == ids[j + 1]);
        }
        lemma_rows_of_paths(t, p, tail, parent, depth, opts, sep, fuel);
        let a = rows(t, c, parent, depth, opts, sep, fuel);
        let b = rows_of(t, tail, parent, depth, opts, sep, fuel);
        let all = rows_of(t, ids, parent, depth, opts, sep, fuel);
        assert(all == a + b);
        assert forall|k: int| 0 <= k < all.len() implies {
            let row = #[trigger] all[k];
            &&& t.live(row.1)
            &&& row.0 == t.path_view(row.1, sep)
        } by {
            if k < a.len() {
                assert(all[k] == a[k]);
            } else {
                assert(all[k] == b[k - a.len()]);
            }
        }
    }
}

/// An exported row's path is its node's path in the tree: from the root
/// of a tree whose root has a name, each row joins its parent row's path
/// and its own name with exactly one separator, adding none where the
/// parent's path already ends with it (a drive root such as `C:\`).
pub proof fn lemma_export_paths_are_tree_paths(t: Tree, opts: ExportOptions, sep: char)
    requires
        t.wf(),
        t.slots() > 0,
        t.name_chars(0).len() > 0,
    ensures
        forall|k: int| 0 <= k < export_rows(t, 0, opts, sep).len() ==> {
            let row = #[trigger] export_rows(t, 0, opts, sep)[k];
            &&& t.live(row.1)
            &&& row.0 == t.path_view(row.1, sep)
        },
{
    t.lemma_root_path(sep);
    assert(append_component(Seq::empty(), t.name_chars(0), sep) =~= t.name_chars(0));
    lemma_rows_paths(t, 0, Seq::empty(), 0, opts, sep, levels_below(t, 0));
}

} // verus!
