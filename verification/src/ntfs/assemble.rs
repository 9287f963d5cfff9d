//! Converts the swept record table into parent-before-child entry batches.
//!
//! A record links under its parent when the parent reference names a live,
//! non-reparse directory whose sequence number matches; everything else is
//! an orphan. From the scan root the linked records are emitted breadth
//! first, each directory's children in record order, with ids counting up
//! from the root's 0 — so every entry's parent has always gone out before
//! it.

use vstd::prelude::*;
use vstd::string::StringSliceAdditionalSpecFns;

use crate::category::{ascii_lower, lower_all};
use crate::entry::{EntryBatch, EntryFlags, FileEntry, kept_len, name_bytes, name_range_ok};
use crate::interner::str_eq;
use crate::ntfs::ParseError;
use crate::ntfs::pipeline::{NO_NAME, Slot, Table, slot_name};
use crate::ntfs::record::{ROOT_RECORD, RecordRef};
use crate::text::{bytes_of, chars_of, push_str};

verus! {

broadcast use vstd::utf8::group_utf8_lib;

/// What an assembly reports besides the batches.
#[derive(Clone, Copy, Debug, Default, PartialEq, Eq, Structural)]
pub struct AssembleStats {
    pub files: u64,
    pub dirs: u64,
    pub bytes: u64,
    pub allocated: u64,
    /// Live records whose parent link failed validation (missing, freed,
    /// reused sequence, not a directory, or self-referential).
    pub orphans: u64,
    pub cancelled: bool,
}

/// An in-use base record of a directory that is no reparse point.
pub open spec fn live_dir(s: Slot) -> bool {
    &&& s.spec_is_base()
    &&& s.flags.spec_is_dir()
    &&& !s.flags.has(EntryFlags::spec_reparse())
}

/// The record `i` links under, if its parent reference validates.
pub open spec fn link_parent(recs: Seq<Slot>, i: int) -> Option<int> {
    let s = recs[i];
    if !s.spec_is_base() || i == ROOT_RECORD || s.rank == NO_NAME {
        None
    } else {
        let p = (s.parent_ref % 0x1_0000_0000_0000) as int;
        let sq = (s.parent_ref / 0x1_0000_0000_0000) as u16;
        if p != i && p < recs.len() && live_dir(recs[p]) && recs[p].seq == sq {
            Some(p)
        } else {
            None
        }
    }
}

/// A live record other than the volume root that links nowhere.
pub open spec fn is_orphan(recs: Seq<Slot>, i: int) -> bool {
    recs[i].spec_is_base() && i != ROOT_RECORD && link_parent(recs, i) is None
}

/// Orphans among the first `k` records.
pub open spec fn orphans_upto(recs: Seq<Slot>, k: int) -> nat
    decreases k,
{
    if k <= 0 {
        0
    } else {
        orphans_upto(recs, k - 1) + (if is_orphan(recs, k - 1) { 1nat } else { 0nat })
    }
}

/// The records below `k` that link under `p`, in record order.
pub open spec fn kids_upto(recs: Seq<Slot>, p: int, k: int) -> Seq<u32>
    decreases k,
{
    if k <= 0 {
        Seq::empty()
    } else if link_parent(recs, k - 1) == Some(p) {
        kids_upto(recs, p, k - 1).push((k - 1) as u32)
    } else {
        kids_upto(recs, p, k - 1)
    }
}

/// The records that link under `p`, in record order.
pub open spec fn kids(recs: Seq<Slot>, p: int) -> Seq<u32> {
    kids_upto(recs, p, recs.len() as int)
}

fn is_live_dir(s: &Slot) -> (r: bool)
    ensures
        r == live_dir(*s),
{
    s.is_base() && s.flags.is_dir() && !s.flags.contains(EntryFlags::reparse())
}

fn link_parent_exec(recs: &Vec<Slot>, i: usize) -> (r: Option<usize>)
    requires
        i < recs@.len(),
        recs@.len() <= u32::MAX,
    ensures
        r matches Some(p) ==> link_parent(recs@, i as int) == Some(p as int),
        r is None ==> link_parent(recs@, i as int) is None,
{
    let s = &recs[i];
    if !s.is_base() || i as u64 == ROOT_RECORD || s.rank == NO_NAME {
        return None;
    }
    let parent = RecordRef(s.parent_ref);
    let p = parent.number();
    let sq = parent.sequence();
    if p != i as u64 && p < recs.len() as u64 && is_live_dir(&recs[p as usize]) && recs[p as usize].seq == sq {
        Some(p as usize)
    } else {
        None
    }
}

proof fn lemma_kids_upto_bound(recs: Seq<Slot>, p: int, k: int)
    ensures
        forall|j: int| 0 <= j < kids_upto(recs, p, k).len() ==> (#[trigger] kids_upto(recs, p, k)[j]) < k,
        kids_upto(recs, p, k).len() <= (if k < 0 { 0 } else { k }),
    decreases k,
{
    if k > 0 {
        lemma_kids_upto_bound(recs, p, k - 1);
    }
}

/// Each record's children, and the number of orphans.
fn link_all(recs: &Vec<Slot>) -> (r: (Vec<Vec<u32>>, u64))
    requires
        recs@.len() <= u32::MAX,
    ensures
        r.0@.len() == recs@.len(),
        forall|p: int| 0 <= p < recs@.len() ==> (#[trigger] r.0@[p])@ == kids(recs@, p),
        r.1 == orphans_upto(recs@, recs@.len() as int),
{
    let n = recs.len();
    let mut kids_of: Vec<Vec<u32>> = Vec::new();
    let mut j: usize = 0;
    while j < n
        invariant
            j <= n,
            n == recs@.len(),
            kids_of@.len() == j,
            forall|p: int| 0 <= p < j ==> (#[trigger] kids_of@[p])@ == Seq::<u32>::empty(),
        decreases n - j,
    {
        kids_of.push(Vec::new());
        j = j + 1;
    }
    let mut orphans: u64 = 0;
    let mut i: usize = 0;
    while i < n
        invariant
            i <= n,
            n == recs@.len(),
            n <= u32::MAX,
            kids_of@.len() == n,
            forall|p: int| 0 <= p < n ==> (#[trigger] kids_of@[p])@ == kids_upto(recs@, p, i as int),
            orphans == orphans_upto(recs@, i as int),
            orphans <= i,
        decreases n - i,
    {
        let lp = link_parent_exec(recs, i);
        match lp {
            Some(p) => {
                let ghost before = kids_of@;
                let mut v = Vec::new();
                std::mem::swap(&mut v, &mut kids_of[p]);
                v.push(i as u32);
                kids_of.set(p, v);
                proof {
                    assert forall|q: int| 0 <= q < n implies (#[trigger] kids_of@[q])@ == kids_upto(recs@, q, i + 1) by {
                        if q != p {
                            assert(kids_of@[q] == before[q]);
                        }
                    }
                }
            },
            None => {
                if recs[i].is_base() && i as u64 != ROOT_RECORD {
                    orphans = orphans + 1;
                }
            },
        }
        i = i + 1;
    }
    (kids_of, orphans)
}

/// What `char::to_lowercase` gives for a character.
pub uninterp spec fn char_lowercase(c: char) -> Seq<char>;

/// std's `char::to_lowercase`, collected into a string.
#[verifier::external_body]
fn char_lower(c: char) -> (r: String)
    ensures
        r@ == char_lowercase(c),
{
    c.to_lowercase().collect()
}

/// Each character's lowercase mapping, concatenated.
pub open spec fn flat_lower(s: Seq<char>) -> Seq<char>
    decreases s.len(),
{
    if s.len() == 0 {
        Seq::empty()
    } else {
        flat_lower(s.drop_last()) + char_lowercase(s.last())
    }
}

pub open spec fn all_ascii(s: Seq<char>) -> bool {
    forall|i: int| 0 <= i < s.len() ==> (#[trigger] s[i] as u32) < 128
}

/// NTFS-style case-insensitive equality: ASCII case for ASCII names,
/// per-character lowercase mapping otherwise.
pub open spec fn names_eq(a: Seq<char>, b: Seq<char>) -> bool {
    if all_ascii(a) && all_ascii(b) {
        lower_all(a) == lower_all(b)
    } else {
        flat_lower(a) == flat_lower(b)
    }
}

fn all_ascii_exec(v: &Vec<char>) -> (r: bool)
    ensures
        r == all_ascii(v@),
{
    let mut i: usize = 0;
    while i < v.len()
        invariant
            i <= v@.len(),
            forall|j: int| 0 <= j < i ==> (#[trigger] v@[j] as u32) < 128,
        decreases v@.len() - i,
    {
        if v[i] as u32 >= 128 {
            return false;
        }
        i = i + 1;
    }
    true
}

fn flat_lower_exec(v: &Vec<char>) -> (r: String)
    ensures
        r@ == flat_lower(v@),
{
    let mut out = String::new();
    let mut i: usize = 0;
    while i < v.len()
        invariant
            i <= v@.len(),
            out@ == flat_lower(v@.subrange(0, i as int)),
        decreases v@.len() - i,
    {
        let l = char_lower(v[i]);
        push_str(&mut out, l.as_str());
        proof {
            let p = v@.subrange(0, i + 1);
            assert(p.drop_last() =~= v@.subrange(0, i as int));
            assert(p.last() == v@[i as int]);
        }
        i = i + 1;
    }
    proof {
        assert(v@.subrange(0, i as int) =~= v@);
    }
    out
}

fn lower_char(c: char) -> (r: char)
    ensures
        r == ascii_lower(c),
{
    if 'A' <= c && c <= 'Z' {
        crate::text::char_from_u32(c as u32 + 32).unwrap()
    } else {
        c
    }
}

/// NTFS-style case-insensitive comparison.
fn names_equal_ci(a: &str, b: &str) -> (r: bool)
    ensures
        r == names_eq(a@, b@),
{
    let x = chars_of(a);
    let y = chars_of(b);
    if all_ascii_exec(&x) && all_ascii_exec(&y) {
        if x.len() != y.len() {
            proof {
                assert(lower_all(a@).len() != lower_all(b@).len());
            }
            return false;
        }
        let mut i: usize = 0;
        while i < x.len()
            invariant
                i <= x@.len(),
                x@.len() == y@.len(),
                x@ == a@,
                y@ == b@,
                all_ascii(a@) && all_ascii(b@),
                forall|j: int| 0 <= j < i ==> ascii_lower(#[trigger] x@[j]) == ascii_lower(y@[j]),
            decreases x@.len() - i,
        {
            if lower_char(x[i]) != lower_char(y[i]) {
                proof {
                    assert(lower_all(a@)[i as int] != lower_all(b@)[i as int]);
                }
                return false;
            }
            i = i + 1;
        }
        proof {
            assert(lower_all(a@) =~= lower_all(b@));
        }
        true
    } else {
        let la = flat_lower_exec(&x);
        let lb = flat_lower_exec(&y);
        let r = str_eq(la.as_str(), lb.as_str());
        proof {
            vstd::utf8::encode_utf8_decode_utf8(la@);
            vstd::utf8::encode_utf8_decode_utf8(lb@);
        }
        r
    }
}

/// The name of record `c`, as characters.
pub open spec fn name_chars(t: Table, c: int) -> Seq<char> {
    vstd::utf8::decode_utf8(slot_name(t.spec_arenas(), t.records@[c]))
}

/// The first of `ks[j..]` that is a non-reparse directory named `comp`.
pub open spec fn find_kid(t: Table, ks: Seq<u32>, comp: Seq<char>, j: int) -> Option<int>
    decreases ks.len() - j,
{
    if j < 0 || j >= ks.len() {
        None
    } else {
        let c = ks[j] as int;
        let s = t.records@[c];
        if s.flags.spec_is_dir() && !s.flags.has(EntryFlags::spec_reparse()) && names_eq(name_chars(t, c), comp) {
            Some(c)
        } else {
            find_kid(t, ks, comp, j + 1)
        }
    }
}

/// The record `comps[i..]` leads to from `rec`, following directory names.
pub open spec fn resolve(t: Table, rec: int, comps: Seq<Seq<char>>, i: int) -> Option<int>
    decreases comps.len() - i,
{
    if i < 0 || i >= comps.len() {
        Some(rec)
    } else {
        match find_kid(t, kids(t.records@, rec), comps[i], 0) {
            None => None,
            Some(c) => resolve(t, c, comps, i + 1),
        }
    }
}

pub open spec fn comps_view(subtree: Seq<&str>) -> Seq<Seq<char>> {
    subtree.map_values(|c: &str| c@)
}


/// The record `n` parent links above `x`, if the chain gets that far.
pub open spec fn ancestor(recs: Seq<Slot>, x: int, n: nat) -> Option<int>
    decreases n,
{
    if n == 0 {
        Some(x)
    } else {
        match link_parent(recs, x) {
            None => None,
            Some(p) => ancestor(recs, p, (n - 1) as nat),
        }
    }
}

proof fn lemma_ancestor_add(recs: Seq<Slot>, x: int, a: nat, b: nat)
    ensures
        ancestor(recs, x, a + b) == (match ancestor(recs, x, a) {
            None => None,
            Some(y) => ancestor(recs, y, b),
        }),
    decreases a,
{
    if a > 0 {
        match link_parent(recs, x) {
            None => {},
            Some(p) => {
                lemma_ancestor_add(recs, p, (a - 1) as nat, b);
                assert((a + b - 1) as nat == (a - 1) as nat + b);
            },
        }
    }
}

/// A record below the volume root lies on no cycle of parent links.
proof fn lemma_no_cycle(recs: Seq<Slot>, x: int, m: nat, l: nat)
    requires
        m >= 1,
        ancestor(recs, x, l) == Some(ROOT_RECORD as int),
    ensures
        ancestor(recs, x, m) != Some(x),
{
    lemma_ancestor_add(recs, x, m, l);
    lemma_ancestor_add(recs, x, l, m);
    assert(link_parent(recs, ROOT_RECORD as int) is None);
    assert(ancestor(recs, ROOT_RECORD as int, m) is None);
    assert(m + l == l + m);
    if ancestor(recs, x, m) == Some(x) {
        assert(ancestor(recs, x, m + l) == Some(ROOT_RECORD as int));
    }
}

proof fn lemma_kids_upto_facts(recs: Seq<Slot>, p: int, k: int)
    requires
        k <= recs.len() <= u32::MAX,
    ensures
        forall|j: int| 0 <= j < kids_upto(recs, p, k).len() ==> (#[trigger] kids_upto(recs, p, k)[j]) < k
            && link_parent(recs, kids_upto(recs, p, k)[j] as int) == Some(p),
        forall|a: int, b: int| 0 <= a < b < kids_upto(recs, p, k).len() ==> (#[trigger] kids_upto(recs, p, k)[a]) < (#[trigger] kids_upto(recs, p, k)[b]),
    decreases k,
{
    if k > 0 {
        lemma_kids_upto_facts(recs, p, k - 1);
        let prev = kids_upto(recs, p, k - 1);
        if link_parent(recs, k - 1) == Some(p) {
            let cur = prev.push((k - 1) as u32);
            assert(kids_upto(recs, p, k) == cur);
            assert forall|j: int| 0 <= j < cur.len() implies (#[trigger] cur[j]) < k && link_parent(recs, cur[j] as int) == Some(p) by {
                if j < prev.len() {
                    assert(cur[j] == prev[j]);
                }
            }
            assert forall|a: int, b: int| 0 <= a < b < cur.len() implies (#[trigger] cur[a]) < (#[trigger] cur[b]) by {
                if b < prev.len() {
                    assert(prev[a] < prev[b]);
                } else {
                    assert(prev[a] < k - 1);
                }
            }
        }
    }
}

/// Every child of `p` links under `p`; the children come in increasing
/// record order.
pub proof fn lemma_kids_facts(recs: Seq<Slot>, p: int)
    requires
        recs.len() <= u32::MAX,
    ensures
        forall|j: int| 0 <= j < kids(recs, p).len() ==> (#[trigger] kids(recs, p)[j]) < recs.len()
            && link_parent(recs, kids(recs, p)[j] as int) == Some(p),
        forall|a: int, b: int| 0 <= a < b < kids(recs, p).len() ==> (#[trigger] kids(recs, p)[a]) < (#[trigger] kids(recs, p)[b]),
{
    lemma_kids_upto_facts(recs, p, recs.len() as int);
}

proof fn lemma_find_kid(t: Table, ks: Seq<u32>, comp: Seq<char>, j: int)
    requires
        find_kid(t, ks, comp, j) is Some,
    ensures
        exists|x: int| 0 <= j <= x < ks.len() && ks[x] as int == find_kid(t, ks, comp, j)->0,
    decreases ks.len() - j,
{
    if 0 <= j < ks.len() {
        let c = ks[j] as int;
        let s = t.records@[c];
        if !(s.flags.spec_is_dir() && !s.flags.has(EntryFlags::spec_reparse()) && names_eq(name_chars(t, c), comp)) {
            lemma_find_kid(t, ks, comp, j + 1);
        }
    }
}

/// Following `comps[i..]` down from `rec` ends `comps.len() - i` parent links
/// below `rec`.
pub proof fn lemma_resolve_ancestor(t: Table, rec: int, comps: Seq<Seq<char>>, i: int)
    requires
        0 <= i <= comps.len(),
        t.records@.len() <= u32::MAX,
        resolve(t, rec, comps, i) is Some,
    ensures
        ancestor(t.records@, resolve(t, rec, comps, i)->0, (comps.len() - i) as nat) == Some(rec),
        0 <= rec < t.records@.len() ==> 0 <= resolve(t, rec, comps, i)->0 < t.records@.len(),
    decreases comps.len() - i,
{
    if i < comps.len() {
        let ks = kids(t.records@, rec);
        let c = find_kid(t, ks, comps[i], 0)->0;
        lemma_find_kid(t, ks, comps[i], 0);
        lemma_kids_facts(t.records@, rec);
        let x = choose|x: int| 0 <= 0 <= x < ks.len() && ks[x] as int == c;
        assert(link_parent(t.records@, ks[x] as int) == Some(rec));
        lemma_resolve_ancestor(t, c, comps, i + 1);
        let s = resolve(t, rec, comps, i)->0;
        lemma_ancestor_add(t.records@, s, (comps.len() - i - 1) as nat, 1);
        assert((comps.len() - i - 1) as nat + 1 == (comps.len() - i) as nat);
        assert(ancestor(t.records@, rec, 0) == Some(rec));
        assert(ancestor(t.records@, c, 1) == Some(rec));
    }
}

/// The flags an emitted entry carries for a record: `HARDLINK` added when
/// the record has several names, `DIR` dropped from a reparse point.
pub open spec fn out_flags(s: Slot) -> EntryFlags {
    let f = if s.link_names > 1 {
        EntryFlags(s.flags.0 | EntryFlags::spec_hardlink().0)
    } else {
        s.flags
    };
    if f.has(EntryFlags::spec_reparse()) {
        EntryFlags(f.0 & !EntryFlags::spec_dir().0)
    } else {
        f
    }
}

/// The record is emitted as a directory (and so is descended into).
pub open spec fn out_is_dir(s: Slot) -> bool {
    out_flags(s).spec_is_dir()
}

/// Directories and reparse points are emitted with no size.
pub open spec fn out_blank(s: Slot) -> bool {
    out_is_dir(s) || out_flags(s).has(EntryFlags::spec_reparse())
}

pub open spec fn out_size(s: Slot) -> u64 {
    if out_blank(s) { 0 } else { s.logical }
}

pub open spec fn out_alloc(s: Slot) -> u64 {
    if out_blank(s) { 0 } else { s.alloc }
}

/// The breadth-first walk's state: records by id, parent ids by id, the ids
/// of the directories in emission order, the directory being expanded, and
/// how many of its children have gone out.
pub type BfsState = (Seq<int>, Seq<int>, Seq<int>, int, int);

pub open spec fn init_state(start: int) -> BfsState {
    (seq![start], seq![0int], seq![0int], 0, 0)
}

pub open spec fn finished(st: BfsState) -> bool {
    !(0 <= st.3 < st.2.len())
}

/// One step of the walk: emit the next child of the directory being
/// expanded, or move on to the next directory.
pub open spec fn step(recs: Seq<Slot>, st: BfsState) -> BfsState {
    let (r, p, q, h, i) = st;
    if finished(st) {
        st
    } else {
        let ks = kids(recs, r[q[h]]);
        if 0 <= i < ks.len() {
            let c = ks[i] as int;
            let id = r.len() as int;
            (r.push(c), p.push(q[h]), if out_is_dir(recs[c]) { q.push(id) } else { q }, h, i + 1)
        } else {
            (r, p, q, h + 1, 0)
        }
    }
}

pub open spec fn run(recs: Seq<Slot>, st: BfsState, k: nat) -> BfsState
    decreases k,
{
    if k == 0 {
        st
    } else {
        step(recs, run(recs, st, (k - 1) as nat))
    }
}

/// The records emitted from `start`, by id: `start` first, then breadth
/// first, each directory's children in record order.
pub open spec fn emission(recs: Seq<Slot>, start: int) -> Seq<int> {
    run(recs, init_state(start), (2 * recs.len() + 2) as nat).0
}

/// The parent id of each emitted entry (the root's is 0).
pub open spec fn emission_parents(recs: Seq<Slot>, start: int) -> Seq<int> {
    run(recs, init_state(start), (2 * recs.len() + 2) as nat).1
}

proof fn lemma_run_prefix(recs: Seq<Slot>, x: BfsState, a: nat, b: nat)
    requires
        a <= b,
    ensures
        run(recs, x, a).0.is_prefix_of(run(recs, x, b).0),
        run(recs, x, a).1.is_prefix_of(run(recs, x, b).1),
    decreases b,
{
    if b > a {
        lemma_run_prefix(recs, x, a, (b - 1) as nat);
        let m = run(recs, x, (b - 1) as nat);
        assert(m.0.is_prefix_of(step(recs, m).0));
        assert(m.1.is_prefix_of(step(recs, m).1));
    }
}

proof fn lemma_run_stable(recs: Seq<Slot>, x: BfsState, a: nat, b: nat)
    requires
        a <= b,
        finished(run(recs, x, a)),
    ensures
        run(recs, x, b) == run(recs, x, a),
    decreases b,
{
    if b > a {
        lemma_run_stable(recs, x, a, (b - 1) as nat);
    }
}

proof fn lemma_len_bound(r: Seq<int>, n: int)
    requires
        r.no_duplicates(),
        0 <= n,
        forall|k: int| 0 <= k < r.len() ==> 0 <= #[trigger] r[k] < n,
    ensures
        r.len() <= n,
{
    r.unique_seq_to_set();
    vstd::set_lib::lemma_int_range(0, n);
    assert(r.to_set().subset_of(vstd::set_lib::set_int_range(0, n)));
    vstd::set_lib::lemma_len_subset(r.to_set(), vstd::set_lib::set_int_range(0, n));
}

/// What holds of every state the walk passes through.
spec fn shape(recs: Seq<Slot>, start: int, st: BfsState, dep: Seq<nat>, l: nat) -> bool {
    let (r, p, q, h, i) = st;
    &&& recs.len() <= u32::MAX
    &&& r.len() >= 1 && r[0] == start && p.len() == r.len() && dep.len() == r.len()
    &&& r.no_duplicates()
    &&& forall|k: int| 0 <= k < r.len() ==> 0 <= #[trigger] r[k] < recs.len()
    &&& forall|k: int| 0 <= k < r.len() ==> ancestor(recs, #[trigger] r[k], dep[k]) == Some(start)
    &&& ancestor(recs, start, l) == Some(ROOT_RECORD as int)
    &&& forall|k: int| 1 <= k < r.len() ==> 0 <= #[trigger] p[k] < k && link_parent(recs, r[k]) == Some(r[p[k]])
    &&& q.len() >= 1 && q[0] == 0
    &&& forall|a: int, b: int| 0 <= a < b < q.len() ==> #[trigger] q[a] < #[trigger] q[b]
    &&& forall|a: int| 0 <= a < q.len() ==> a <= #[trigger] q[a] < r.len()
    &&& 0 <= h <= q.len()
    &&& h == q.len() ==> i == 0
    &&& h < q.len() ==> {
        let ks = kids(recs, r[q[h]]);
        &&& 0 <= i <= ks.len()
        &&& i < r.len()
        &&& forall|k: int| 1 <= k < r.len() - i ==> #[trigger] p[k] < q[h]
        &&& forall|k: int| r.len() - i <= k < r.len() ==> #[trigger] p[k] == q[h] && r[k] == ks[k - (r.len() - i)] as int
    }
}

#[verifier::spinoff_prover]
#[verifier::rlimit(40)]
proof fn lemma_step_shape(recs: Seq<Slot>, start: int, st: BfsState, dep: Seq<nat>, l: nat) -> (dep2: Seq<nat>)
    requires
        shape(recs, start, st, dep, l),
    ensures
        shape(recs, start, step(recs, st), dep2, l),
{
    let (r, p, q, h, i) = st;
    if finished(st) {
        return dep;
    }
    let ks = kids(recs, r[q[h]]);
    lemma_kids_facts(recs, r[q[h]]);
    if i < ks.len() {
        let c = ks[i] as int;
        let d = dep[q[h]];
        assert(link_parent(recs, c) == Some(r[q[h]]));
        assert(ancestor(recs, c, d + 1) == Some(start));
        assert forall|k: int| 0 <= k < r.len() implies #[trigger] r[k] != c by {
            if r[k] == c {
                if k == 0 {
                    lemma_no_cycle(recs, start, d + 1, l);
                } else {
                    assert(r[p[k]] == r[q[h]]);
                    assert(p[k] == q[h]);
                    if k >= r.len() - i {
                        let x = k - (r.len() - i);
                        assert(ks[x] < ks[i as int]);
                    }
                }
            }
        }
        let dep2 = dep.push(d + 1);
        let st2 = step(recs, st);
        let r2 = r.push(c);
        assert(st2.0 == r2);
        assert(r2.no_duplicates()) by {
            assert forall|a: int, b: int| 0 <= a < r2.len() && 0 <= b < r2.len() && a != b implies r2[a] != r2[b] by {
                if a < r.len() && b < r.len() {
                    assert(r[a] != r[b]);
                } else if a < r.len() {
                    assert(r[a] != c);
                } else {
                    assert(r[b] != c);
                }
            }
        }
        assert forall|k: int| 0 <= k < r2.len() implies ancestor(recs, #[trigger] r2[k], dep2[k]) == Some(start) by {
            if k < r.len() {
                assert(r2[k] == r[k]);
            }
        }
        let q2 = st2.2;
        assert(q.is_prefix_of(q2));
        assert forall|a: int| 0 <= a < q2.len() implies a <= #[trigger] q2[a] < r2.len() by {
            if a < q.len() {
                assert(q2[a] == q[a]);
            } else {
                assert(q[q.len() - 1] < r.len());
            }
        }
        assert forall|a: int, b: int| 0 <= a < b < q2.len() implies #[trigger] q2[a] < #[trigger] q2[b] by {
            if b < q.len() {
                assert(q[a] < q[b]);
            } else {
                assert(q2[a] == q[a]);
            }
        }
        let p2 = st2.1;
        assert forall|k: int| 1 <= k < r2.len() implies 0 <= #[trigger] p2[k] < k && link_parent(recs, r2[k]) == Some(r2[p2[k]]) by {
            if k < r.len() {
                assert(p2[k] == p[k]);
                assert(r2[p[k]] == r[p[k]]);
            }
        }
        assert(q2[h] == q[h]);
        assert forall|k: int| 1 <= k < r2.len() - (i + 1) implies #[trigger] p2[k] < q2[h] by {
            assert(p2[k] == p[k]);
        }
        assert forall|k: int| r2.len() - (i + 1) <= k < r2.len() implies #[trigger] p2[k] == q2[h] && r2[k] == ks[k - (r2.len() - (i + 1))] as int by {
            if k < r.len() {
                assert(p2[k] == p[k]);
            }
        }
        assert(r2[q2[h]] == r[q[h]]);
        assert(st2 == (r2, p2, q2, h, i + 1));
        assert(r2.len() >= 1 && r2[0] == start && p2.len() == r2.len() && dep2.len() == r2.len());
        assert(forall|k: int| 0 <= k < r2.len() ==> 0 <= #[trigger] r2[k] < recs.len());
        assert(q2.len() >= 1 && q2[0] == 0);
        dep2
    } else {
        let st2 = step(recs, st);
        if h + 1 < q.len() {
            assert forall|k: int| 1 <= k < r.len() implies #[trigger] p[k] < q[h + 1] by {
                assert(q[h] < q[h + 1]);
            }
            assert(q[h + 1] < r.len());
        }
        assert(st2 == (r, p, q, h + 1, 0int));
        dep
    }
}


proof fn lemma_run_shape(recs: Seq<Slot>, start: int, l: nat, j: nat) -> (dep: Seq<nat>)
    requires
        shape(recs, start, init_state(start), seq![0nat], l),
    ensures
        shape(recs, start, run(recs, init_state(start), j), dep, l),
    decreases j,
{
    if j == 0 {
        seq![0nat]
    } else {
        let d = lemma_run_shape(recs, start, l, (j - 1) as nat);
        lemma_step_shape(recs, start, run(recs, init_state(start), (j - 1) as nat), d, l)
    }
}

/// What an assembly emits, from a scan root resolved below the volume
/// root: the scan root first, no record twice (so a hardlinked file is
/// counted once), and every later entry after its parent: each entry's
/// parent id is smaller than its own, and the record there is the one its
/// parent reference validly names.
pub proof fn lemma_parents_first(t: Table, comps: Seq<Seq<char>>)
    requires
        t.records@.len() <= u32::MAX,
        root_ok(t.records@),
        resolve(t, ROOT_RECORD as int, comps, 0) is Some,
    ensures
        ({
            let recs = t.records@;
            let s = resolve(t, ROOT_RECORD as int, comps, 0)->0;
            let em = emission(recs, s);
            let ep = emission_parents(recs, s);
            &&& em.len() >= 1 && em[0] == s
            &&& em.no_duplicates()
            &&& ep.len() == em.len()
            &&& forall|k: int| 1 <= k < em.len() ==> 0 <= #[trigger] ep[k] < k && link_parent(recs, em[k]) == Some(em[ep[k]])
        }),
{
    let recs = t.records@;
    let s = resolve(t, ROOT_RECORD as int, comps, 0)->0;
    lemma_resolve_ancestor(t, ROOT_RECORD as int, comps, 0);
    let l = comps.len();
    let st0 = init_state(s);
    assert(ancestor(recs, s, 0) == Some(s));
    assert(st0.0.no_duplicates());
    assert(shape(recs, s, st0, seq![0nat], l));
    let f = (2 * recs.len() + 2) as nat;
    let dep = lemma_run_shape(recs, s, l, f);
    let st = run(recs, st0, f);
    assert(shape(recs, s, st, dep, l));
}

/// Files among the entries with ids `1..k`.
pub open spec fn files_upto(recs: Seq<Slot>, r: Seq<int>, k: int) -> nat
    decreases k,
{
    if k <= 1 {
        0
    } else {
        files_upto(recs, r, k - 1) + (if out_is_dir(recs[r[k - 1]]) { 0nat } else { 1nat })
    }
}

/// Directories among the entries with ids `1..k`.
pub open spec fn dirs_upto(recs: Seq<Slot>, r: Seq<int>, k: int) -> nat
    decreases k,
{
    if k <= 1 {
        0
    } else {
        dirs_upto(recs, r, k - 1) + (if out_is_dir(recs[r[k - 1]]) { 1nat } else { 0nat })
    }
}

/// Logical bytes of the entries with ids `1..k`.
pub open spec fn bytes_upto(recs: Seq<Slot>, r: Seq<int>, k: int) -> nat
    decreases k,
{
    if k <= 1 {
        0
    } else {
        bytes_upto(recs, r, k - 1) + out_size(recs[r[k - 1]]) as nat
    }
}

/// Allocated bytes of the entries with ids `1..k`.
pub open spec fn alloc_upto(recs: Seq<Slot>, r: Seq<int>, k: int) -> nat
    decreases k,
{
    if k <= 1 {
        0
    } else {
        alloc_upto(recs, r, k - 1) + out_alloc(recs[r[k - 1]]) as nat
    }
}

pub open spec fn capped(x: nat) -> u64 {
    if x > u64::MAX { u64::MAX } else { x as u64 }
}

/// A name as an entry keeps it: at most `u16::MAX` bytes, cut at a
/// character boundary.
pub open spec fn kept(b: Seq<u8>) -> Seq<u8> {
    b.subrange(0, kept_len(b) as int)
}

/// `e`, read against the batch name bytes `names`, is the entry with id `id`
/// of the walk from `start`.
pub open spec fn emitted_ok(
    recs: Seq<Slot>,
    arenas: Seq<Seq<char>>,
    start: int,
    root: Seq<u8>,
    id: int,
    names: Seq<u8>,
    e: FileEntry,
) -> bool {
    &&& name_range_ok(names, e)
    &&& if id == 0 {
        &&& e.path_id == 0 && e.parent_id == 0
        &&& e.flags == EntryFlags::spec_dir() && e.size == 0 && e.allocated_size == 0
        &&& e.mtime == recs[start].mtime
        &&& name_bytes(names, e) == kept(root)
    } else {
        let s = recs[emission(recs, start)[id]];
        &&& e.path_id == id && e.parent_id == emission_parents(recs, start)[id]
        &&& e.flags == out_flags(s) && e.size == out_size(s) && e.allocated_size == out_alloc(s)
        &&& e.mtime == s.mtime
        &&& name_bytes(names, e) == kept(slot_name(arenas, s))
    }
}

proof fn lemma_name_bytes_extend(b: Seq<u8>, ext: Seq<u8>, e: FileEntry)
    requires
        e.name_off + e.name_len <= b.len(),
    ensures
        name_bytes(b + ext, e) == name_bytes(b, e),
{
    assert(name_bytes(b + ext, e) =~= name_bytes(b, e));
}

/// Pulls one subtree of a swept table out as parent-before-child batches:
/// first a batch holding only the scan root, then batches of `batch_size`
/// entries (the last one shorter) in breadth-first order.
pub struct Assembler<'a> {
    table: &'a Table,
    kids_of: Vec<Vec<u32>>,
    orphans: u64,
    start: u32,
    root_path: String,
    batch_size: usize,
    queue: Vec<(u32, u32)>,
    head: usize,
    idx: usize,
    next_id: u32,
    root_sent: bool,
    stats: AssembleStats,
    st: Ghost<BfsState>,
    steps: Ghost<nat>,
    dep: Ghost<Seq<nat>>,
    depth: Ghost<nat>,
}

impl<'a> Assembler<'a> {
    pub closed spec fn records(&self) -> Seq<Slot> {
        self.table.records@
    }

    pub closed spec fn arenas(&self) -> Seq<Seq<char>> {
        self.table.spec_arenas()
    }

    /// The record the scan root stands for.
    pub closed spec fn start(&self) -> int {
        self.start as int
    }

    /// The root entry's name.
    pub closed spec fn root_name(&self) -> Seq<u8> {
        bytes_of(self.root_path@)
    }

    /// Entries per batch after the root's.
    pub closed spec fn batch_limit(&self) -> nat {
        self.batch_size as nat
    }

    /// How many entries have been handed out.
    pub closed spec fn sent(&self) -> nat {
        if self.root_sent {
            self.st@.0.len()
        } else {
            0
        }
    }

    /// The walk has run out of directories to expand.
    pub closed spec fn exhausted(&self) -> bool {
        self.root_sent && finished(self.st@)
    }

    /// The walk emitted so far, in terms of the full emission.
    pub closed spec fn inv(&self) -> bool {
        let recs = self.table.records@;
        let n = recs.len();
        let st = self.st@;
        let (r, p, q, h, i) = st;
        let start = self.start as int;
        let em = emission(recs, start);
        &&& n <= u32::MAX
        &&& self.batch_size >= 1
        &&& self.kids_of@.len() == n
        &&& forall|x: int| 0 <= x < n ==> (#[trigger] self.kids_of@[x])@ == kids(recs, x)
        &&& self.orphans == orphans_upto(recs, n as int)
        &&& start < n
        &&& shape(recs, start, st, self.dep@, self.depth@)
        &&& st == run(recs, init_state(start), self.steps@)
        &&& self.steps@ == r.len() - 1 + h
        &&& self.queue@.len() == q.len()
        &&& forall|x: int| 0 <= x < q.len() ==> (#[trigger] self.queue@[x]).0 == r[q[x]] && self.queue@[x].1 == q[x]
        &&& self.head == h && self.idx == i && self.next_id == r.len()
        &&& !self.root_sent ==> st == init_state(start) && self.steps@ == 0
        &&& self.stats.files == files_upto(recs, em, r.len() as int)
        &&& self.stats.dirs == (if self.root_sent { 1nat } else { 0nat }) + dirs_upto(recs, em, r.len() as int)
        &&& self.stats.files <= r.len() && self.stats.dirs <= r.len()
        &&& self.stats.bytes == capped(bytes_upto(recs, em, r.len() as int))
        &&& self.stats.allocated == capped(alloc_upto(recs, em, r.len() as int))
    }

    /// The state seen so far is a prefix of the full emission, and all of it
    /// once the walk has finished.
    proof fn lemma_prefix(&self)
        requires
            self.inv(),
        ensures
            self.st@.0.is_prefix_of(emission(self.records(), self.start())),
            self.st@.1.is_prefix_of(emission_parents(self.records(), self.start())),
            finished(self.st@) ==> self.st@.0 == emission(self.records(), self.start()),
            self.st@.0.len() <= self.records().len(),
            self.st@.3 <= self.st@.0.len(),
    {
        let recs = self.table.records@;
        let st = self.st@;
        let (r, p, q, h, i) = st;
        let f = (2 * recs.len() + 2) as nat;
        lemma_len_bound(r, recs.len() as int);
        if h > 0 {
            assert(h - 1 <= q[h - 1] < r.len());
        }
        lemma_run_prefix(recs, init_state(self.start as int), self.steps@, f);
        if finished(st) {
            lemma_run_stable(recs, init_state(self.start as int), self.steps@, f);
        }
    }

    /// One step of the walk; an emitted entry goes into `batch`.
    fn advance(&mut self, batch: &mut EntryBatch, Ghost(base): Ghost<nat>)
        requires
            old(self).inv(),
            old(self).root_sent,
            !finished(old(self).st@),
            bytes_of(old(batch).names@).len() <= u32::MAX - 65535,
            old(batch).entries@.len() + base == old(self).st@.0.len(),
            forall|j: int| 0 <= j < old(batch).entries@.len() ==> emitted_ok(
                old(self).records(),
                old(self).arenas(),
                old(self).start(),
                old(self).root_name(),
                base + j,
                bytes_of(old(batch).names@),
                #[trigger] old(batch).entries@[j],
            ),
        ensures
            final(self).inv(),
            final(self).root_sent,
            final(self).table == old(self).table,
            final(self).start == old(self).start,
            final(self).root_path == old(self).root_path,
            final(self).batch_size == old(self).batch_size,
            final(self).st@ == step(old(self).records(), old(self).st@),
            final(batch).entries@.len() + base == final(self).st@.0.len(),
            forall|j: int| 0 <= j < final(batch).entries@.len() ==> emitted_ok(
                final(self).records(),
                final(self).arenas(),
                final(self).start(),
                final(self).root_name(),
                base + j,
                bytes_of(final(batch).names@),
                #[trigger] final(batch).entries@[j],
            ),
            final(batch).entries@.len() > old(batch).entries@.len() ==> !finished(final(self).st@),
            final(batch).entries@.len() <= old(batch).entries@.len() + 1,
            final(batch).entries@.len() == old(batch).entries@.len() ==> final(batch).names@ == old(batch).names@,
    {
        let ghost recs = self.table.records@;
        let ghost start = self.start as int;
        let ghost st = self.st@;
        let ghost em = emission(recs, start);
        let ghost arenas = self.table.spec_arenas();
        let ghost root = bytes_of(self.root_path@);
        proof {
            self.lemma_prefix();
        }
        let (rec, pid) = self.queue[self.head];
        let nk = self.kids_of[rec as usize].len();
        if self.idx < nk {
            let c = self.kids_of[rec as usize][self.idx];
            proof {
                lemma_kids_facts(recs, rec as int);
                assert(self.kids_of@[rec as int]@ == kids(recs, rec as int));
            }
            let slot = self.table.records[c as usize];
            let mut flags = slot.flags;
            if slot.link_names > 1 {
                flags.insert(EntryFlags::hardlink());
            }
            let is_reparse = flags.contains(EntryFlags::reparse());
            let ghost f0 = flags.0;
            if is_reparse {
                flags.remove(EntryFlags::dir());
            }
            let is_dir = flags.is_dir();
            proof {
                assert((f0 & !1u16) & 2u16 == 2u16 <==> f0 & 2u16 == 2u16) by (bit_vector);
            }
            let (size, alloc) = if is_dir || is_reparse {
                (0u64, 0u64)
            } else {
                (slot.logical, slot.alloc)
            };
            let id = self.next_id;
            let ghost new_dep = lemma_step_shape(recs, start, st, self.dep@, self.depth@);
            let ghost st2 = step(recs, st);
            proof {
                lemma_len_bound(st2.0, recs.len() as int);
                lemma_run_prefix(recs, init_state(start), (self.steps@ + 1) as nat, (2 * recs.len() + 2) as nat);
                assert(st2 == run(recs, init_state(start), (self.steps@ + 1) as nat));
                lemma_len_bound(st2.0, recs.len() as int);
                assert(st2.0[id as int] == c as int);
                assert(em[id as int] == c as int);
                assert(st2.1[id as int] == pid as int);
                assert(st2.1.is_prefix_of(emission_parents(recs, start))) by {
                    lemma_len_bound(st2.0, recs.len() as int);
                    if st2.3 > 0 {
                        assert(st2.3 - 1 <= st2.2[st2.3 - 1] < st2.0.len());
                    }
                    lemma_run_prefix(recs, init_state(start), (self.steps@ + 1) as nat, (2 * recs.len() + 2) as nat);
                }
            }
            let ghost old_names = bytes_of(batch.names@);
            assert(batch.wf()) by {
                assert forall|k: int| 0 <= k < batch.entries@.len() implies name_range_ok(old_names, #[trigger] batch.entries@[k]) by {
                    assert(emitted_ok(recs, arenas, start, root, base + k, old_names, batch.entries@[k]));
                }
            }
            let name = self.table.name(&slot);
            proof {
                crate::entry::lemma_kept_len(name.spec_bytes());
            }
            batch.push(
                name,
                FileEntry {
                    path_id: id,
                    parent_id: pid,
                    name_off: 0,
                    name_len: 0,
                    flags,
                    size,
                    allocated_size: alloc,
                    mtime: slot.mtime,
                },
            );
            proof {
                let nb = bytes_of(batch.names@);
                let ext = name.spec_bytes().subrange(0, kept_len(name.spec_bytes()) as int);
                assert(nb == old_names + ext);
                assert forall|j: int| 0 <= j < batch.entries@.len() implies emitted_ok(
                    recs,
                    arenas,
                    start,
                    root,
                    base + j,
                    nb,
                    #[trigger] batch.entries@[j],
                ) by {
                    let e = batch.entries@[j];
                    if j < old(batch).entries@.len() {
                        assert(e == old(batch).entries@[j]);
                        assert(emitted_ok(recs, arenas, start, root, base + j, old_names, e));
                        lemma_name_bytes_extend(old_names, ext, e);
                    } else {
                        assert(base + j == id);
                        assert(name_bytes(nb, e) =~= ext);
                    }
                    assert(name_range_ok(nb, e));
                }
            }
            self.next_id = id + 1;
            if is_dir {
                self.queue.push((c, id));
                self.stats.dirs = self.stats.dirs + 1;
            } else {
                self.stats.files = self.stats.files + 1;
                self.stats.bytes = self.stats.bytes.saturating_add(size);
                self.stats.allocated = self.stats.allocated.saturating_add(alloc);
            }
            self.idx = self.idx + 1;
            self.st = Ghost(st2);
            self.steps = Ghost((self.steps@ + 1) as nat);
            self.dep = Ghost(new_dep);
            proof {
                assert(flags == out_flags(slot));
                assert(em[id as int] == c as int);
                assert(files_upto(recs, em, st2.0.len() as int) == files_upto(recs, em, st.0.len() as int) + (if is_dir { 0nat } else { 1nat }));
                assert(dirs_upto(recs, em, st2.0.len() as int) == dirs_upto(recs, em, st.0.len() as int) + (if is_dir { 1nat } else { 0nat }));
                assert(bytes_upto(recs, em, st2.0.len() as int) == bytes_upto(recs, em, st.0.len() as int) + size);
                assert(alloc_upto(recs, em, st2.0.len() as int) == alloc_upto(recs, em, st.0.len() as int) + alloc);
                let q2 = st2.2;
                assert forall|x: int| 0 <= x < q2.len() implies (#[trigger] self.queue@[x]).0 == st2.0[q2[x]] && self.queue@[x].1 == q2[x] by {
                    if x < st.2.len() {
                        assert(self.queue@[x] == old(self).queue@[x]);
                        assert(st2.0[st.2[x]] == st.0[st.2[x]]);
                    }
                }
            }
        } else {
            self.head = self.head + 1;
            self.idx = 0;
            let ghost new_dep = lemma_step_shape(recs, start, st, self.dep@, self.depth@);
            self.st = Ghost(step(recs, st));
            self.steps = Ghost((self.steps@ + 1) as nat);
            self.dep = Ghost(new_dep);
        }
    }
}


/// The volume root record is a live directory.
pub open spec fn root_ok(recs: Seq<Slot>) -> bool {
    ROOT_RECORD < recs.len() && live_dir(recs[ROOT_RECORD as int])
}

/// The first child of `ks` that is a non-reparse directory named `comp`.
fn find_child(table: &Table, ks: &Vec<u32>, comp: &str) -> (r: Option<u32>)
    requires
        forall|x: int| 0 <= x < ks@.len() ==> (#[trigger] ks@[x]) < table.records@.len(),
    ensures
        r matches Some(c) ==> find_kid(*table, ks@, comp@, 0) == Some(c as int) && c < table.records@.len(),
        r is None ==> find_kid(*table, ks@, comp@, 0) is None,
{
    let mut j: usize = 0;
    while j < ks.len()
        invariant
            j <= ks@.len(),
            forall|x: int| 0 <= x < ks@.len() ==> (#[trigger] ks@[x]) < table.records@.len(),
            find_kid(*table, ks@, comp@, 0) == find_kid(*table, ks@, comp@, j as int),
        decreases ks@.len() - j,
    {
        let c = ks[j];
        let s = &table.records[c as usize];
        if s.flags.is_dir() && !s.flags.contains(EntryFlags::reparse()) {
            let name = table.name(s);
            if names_equal_ci(name, comp) {
                return Some(c);
            }
        }
        j = j + 1;
    }
    None
}

impl<'a> Assembler<'a> {
    /// Checks the volume root, links every record under its parent, and
    /// resolves the scan root from `subtree` (path components below the
    /// volume root, compared case-insensitively). A `batch_size` of 0 counts
    /// as 1.
    pub fn new(table: &'a Table, subtree: &[&str], root_path: &str, batch_size: usize) -> (r: Result<Assembler<'a>, ParseError>)
        requires
            table.records@.len() <= u32::MAX,
        ensures
            !root_ok(table.records@) ==> r == Err::<Assembler<'a>, ParseError>(ParseError("volume root record missing from $MFT")),
            root_ok(table.records@) && resolve(*table, ROOT_RECORD as int, comps_view(subtree@), 0) is None ==> r == Err::<Assembler<'a>, ParseError>(
                ParseError("scan root not found in $MFT"),
            ),
            root_ok(table.records@) && resolve(*table, ROOT_RECORD as int, comps_view(subtree@), 0) is Some ==> (r matches Ok(a) && {
                &&& a.inv()
                &&& a.records() == table.records@
                &&& a.arenas() == table.spec_arenas()
                &&& a.start() == resolve(*table, ROOT_RECORD as int, comps_view(subtree@), 0)->0
                &&& a.root_name() == root_path.spec_bytes()
                &&& a.batch_limit() == (if batch_size == 0 { 1 } else { batch_size as nat })
                &&& a.sent() == 0
                &&& !a.exhausted()
            }),
    {
        let n = table.records.len();
        if ROOT_RECORD as usize >= n || !is_live_dir(&table.records[ROOT_RECORD as usize]) {
            return Err(ParseError("volume root record missing from $MFT"));
        }
        let (kids_of, orphans) = link_all(&table.records);
        let ghost recs = table.records@;
        let ghost comps = comps_view(subtree@);
        let mut start: u32 = ROOT_RECORD as u32;
        let mut i: usize = 0;
        while i < subtree.len()
            invariant
                i <= subtree@.len(),
                comps == comps_view(subtree@),
                recs == table.records@,
                n == recs.len(),
                n <= u32::MAX,
                root_ok(recs),
                start < n,
                kids_of@.len() == n,
                forall|x: int| 0 <= x < n ==> (#[trigger] kids_of@[x])@ == kids(recs, x),
                resolve(*table, ROOT_RECORD as int, comps, 0) == resolve(*table, start as int, comps, i as int),
            decreases subtree@.len() - i,
        {
            let comp: &str = subtree[i];
            proof {
                lemma_kids_facts(recs, start as int);
                assert(kids_of@[start as int]@ == kids(recs, start as int));
                assert(comps[i as int] == comp@);
            }
            match find_child(table, &kids_of[start as usize], comp) {
                None => {
                    return Err(ParseError("scan root not found in $MFT"));
                },
                Some(c) => {
                    start = c;
                },
            }
            i = i + 1;
        }
        proof {
            assert(resolve(*table, start as int, comps, i as int) == Some(start as int));
            lemma_resolve_ancestor(*table, ROOT_RECORD as int, comps, 0);
        }
        let mut queue: Vec<(u32, u32)> = Vec::new();
        queue.push((start, 0));
        let bs = if batch_size == 0 { 1 } else { batch_size };
        let ghost st0 = init_state(start as int);
        let ghost d0: Seq<nat> = seq![0nat];
        let ghost l = comps.len();
        let a = Assembler {
            table,
            kids_of,
            orphans,
            start,
            root_path: root_path.to_owned(),
            batch_size: bs,
            queue,
            head: 0,
            idx: 0,
            next_id: 1,
            root_sent: false,
            stats: AssembleStats { files: 0, dirs: 0, bytes: 0, allocated: 0, orphans: 0, cancelled: false },
            st: Ghost(st0),
            steps: Ghost(0),
            dep: Ghost(d0),
            depth: Ghost(l),
        };
        proof {
            let st = init_state(start as int);
            assert(st.0.no_duplicates());
            assert(a.queue@[0] == (start, 0u32));
            assert(ancestor(recs, start as int, 0) == Some(start as int));
        }
        Ok(a)
    }

    /// The next batch: the scan root alone first, then up to `batch_size`
    /// entries of the walk at a time; `None` once everything has gone out.
    /// A batch ends early when its name buffer nears `u32::MAX` bytes.
    pub fn next_batch(&mut self) -> (r: Option<EntryBatch>)
        requires
            old(self).inv(),
        ensures
            final(self).inv(),
            final(self).records() == old(self).records(),
            final(self).arenas() == old(self).arenas(),
            final(self).start() == old(self).start(),
            final(self).root_name() == old(self).root_name(),
            final(self).batch_limit() == old(self).batch_limit(),
            old(self).sent() <= emission(old(self).records(), old(self).start()).len(),
            final(self).sent() <= emission(old(self).records(), old(self).start()).len(),
            r is None <==> old(self).sent() == emission(old(self).records(), old(self).start()).len(),
            old(self).exhausted() ==> r is None,
            old(self).sent() == 0 ==> r is Some,
            r is None ==> final(self).sent() == old(self).sent() && final(self).exhausted(),
            r matches Some(b) ==> {
                &&& b.wf()
                &&& b.entries@.len() >= 1
                &&& final(self).sent() == old(self).sent() + b.entries@.len()
                &&& old(self).sent() == 0 ==> b.entries@.len() == 1 && !final(self).exhausted()
                &&& old(self).sent() > 0 ==> b.entries@.len() <= old(self).batch_limit()
                &&& old(self).sent() > 0 && final(self).exhausted() ==> b.entries@.len() < old(self).batch_limit()
                &&& old(self).sent() > 0 && b.entries@.len() < old(self).batch_limit() && bytes_of(b.names@).len() <= u32::MAX - 65535
                    ==> final(self).exhausted()
                &&& forall|j: int| 0 <= j < b.entries@.len() ==> emitted_ok(
                    old(self).records(),
                    old(self).arenas(),
                    old(self).start(),
                    old(self).root_name(),
                    old(self).sent() + j,
                    bytes_of(b.names@),
                    #[trigger] b.entries@[j],
                )
            },
    {
        proof {
            self.lemma_prefix();
        }
        if !self.root_sent {
            let mut b = EntryBatch::with_capacity(1, 0);
            let mtime = self.table.records[self.start as usize].mtime;
            let name = self.root_path.as_str();
            proof {
                crate::entry::lemma_kept_len(name.spec_bytes());
            }
            b.push(
                name,
                FileEntry {
                    path_id: 0,
                    parent_id: 0,
                    name_off: 0,
                    name_len: 0,
                    flags: EntryFlags::dir(),
                    size: 0,
                    allocated_size: 0,
                    mtime,
                },
            );
            self.stats.dirs = 1;
            self.root_sent = true;
            proof {
                let e = b.entries@[0];
                assert(name_bytes(bytes_of(b.names@), e) =~= kept(name.spec_bytes()));
                assert(name_range_ok(bytes_of(b.names@), b.entries@[0]));
                assert(!finished(self.st@));
            }
            return Some(b);
        }
        let mut batch = EntryBatch::with_capacity(self.batch_size, 0);
        let ghost base = self.st@.0.len();
        while batch.len() < self.batch_size && self.head < self.queue.len() && crate::text::byte_len(batch.names.as_str()) <= 4294901760
            invariant
                self.inv(),
                self.root_sent,
                self.table == old(self).table,
                self.start == old(self).start,
                self.root_path == old(self).root_path,
                self.batch_size == old(self).batch_size,
                base == old(self).st@.0.len(),
                batch.entries@.len() + base == self.st@.0.len(),
                batch.entries@.len() <= self.batch_size,
                batch.entries@.len() >= self.batch_size ==> !finished(self.st@),
                batch.entries@.len() == 0 ==> batch.names@ == Seq::<char>::empty(),
                forall|j: int| 0 <= j < batch.entries@.len() ==> emitted_ok(
                    old(self).records(),
                    old(self).arenas(),
                    old(self).start(),
                    old(self).root_name(),
                    base + j,
                    bytes_of(batch.names@),
                    #[trigger] batch.entries@[j],
                ),
            decreases self.batch_size - batch.entries@.len(), self.queue@.len() - self.head,
        {
            proof {
                vstd::utf8::encode_utf8_valid_utf8(batch.names@);
            }
            self.advance(&mut batch, Ghost(base));
        }
        proof {
            self.lemma_prefix();
            assert forall|k: int| 0 <= k < batch.entries@.len() implies name_range_ok(bytes_of(batch.names@), #[trigger] batch.entries@[k]) by {
                assert(emitted_ok(
                    old(self).records(),
                    old(self).arenas(),
                    old(self).start(),
                    old(self).root_name(),
                    base + k,
                    bytes_of(batch.names@),
                    batch.entries@[k],
                ));
            }
        }
        if batch.len() == 0 {
            return None;
        }
        Some(batch)
    }

    /// What the walk has counted so far. The orphan count is only reported
    /// once the walk has been exhausted.
    pub fn stats(&self, cancelled: bool) -> (s: AssembleStats)
        requires
            self.inv(),
        ensures
            s.files == files_upto(self.records(), emission(self.records(), self.start()), self.sent() as int),
            s.dirs == (if self.sent() > 0 { 1nat } else { 0nat }) + dirs_upto(
                self.records(),
                emission(self.records(), self.start()),
                self.sent() as int,
            ),
            s.bytes == capped(bytes_upto(self.records(), emission(self.records(), self.start()), self.sent() as int)),
            s.allocated == capped(alloc_upto(self.records(), emission(self.records(), self.start()), self.sent() as int)),
            s.orphans == (if self.exhausted() { orphans_upto(self.records(), self.records().len() as int) } else { 0 }),
            s.cancelled == cancelled,
            self.sent() <= emission(self.records(), self.start()).len(),
            self.exhausted() ==> self.sent() == emission(self.records(), self.start()).len(),
    {
        proof {
            self.lemma_prefix();
        }
        let mut s = self.stats;
        s.orphans = if self.root_sent && self.head >= self.queue.len() { self.orphans } else { 0 };
        s.cancelled = cancelled;
        s
    }
}


/// `s` tallies the first `k` entries of the walk from `start`.
pub open spec fn tallies(recs: Seq<Slot>, start: int, k: nat, s: AssembleStats) -> bool {
    let em = emission(recs, start);
    &&& k <= em.len()
    &&& s.files == files_upto(recs, em, k as int)
    &&& s.dirs == (if k > 0 { 1nat } else { 0nat }) + dirs_upto(recs, em, k as int)
    &&& s.bytes == capped(bytes_upto(recs, em, k as int))
    &&& s.allocated == capped(alloc_upto(recs, em, k as int))
}

/// `s` is what an assembly reports after handing out `k` entries of the walk
/// from `start`: the orphans once all of them went out, unless cancelled
/// before the last batch.
pub open spec fn reported(recs: Seq<Slot>, start: int, k: nat, s: AssembleStats) -> bool {
    let total = emission(recs, start).len();
    &&& 1 <= k
    &&& tallies(recs, start, k, s)
    &&& !s.cancelled ==> k == total && s.orphans == orphans_upto(recs, recs.len() as int)
    &&& s.cancelled ==> s.orphans == 0 || (k == total && s.orphans == orphans_upto(recs, recs.len() as int))
}

/// `s` is what an assembly of `subtree` reports, after some number of
/// entries went out.
pub open spec fn assembled(t: Table, subtree: Seq<&str>, s: AssembleStats) -> bool {
    exists|k: nat| reported(t.records@, resolve(t, ROOT_RECORD as int, comps_view(subtree), 0)->0, k, s)
}

/// Entries per batch after the root's: `batch_size`, at least one.
pub open spec fn limit_of(batch_size: usize) -> nat {
    if batch_size == 0 { 1nat } else { batch_size as nat }
}

/// Entries in the first `j` batches.
pub open spec fn sent_before(bs: Seq<EntryBatch>, j: int) -> nat
    decreases j,
{
    if j <= 0 {
        0
    } else {
        sent_before(bs, j - 1) + bs[j - 1].entries@.len()
    }
}

/// `bs` is the run of batches an assembly of the walk from `start` hands
/// out, in order: the scan root alone first, then at most `limit` entries of
/// the walk at a time, every entry the next one of the walk.
pub open spec fn batches_ok(recs: Seq<Slot>, arenas: Seq<Seq<char>>, start: int, root: Seq<u8>, limit: nat, bs: Seq<EntryBatch>) -> bool {
    &&& bs.len() >= 1 ==> bs[0].entries@.len() == 1
    &&& forall|j: int| 0 <= j < bs.len() ==> {
        let b = #[trigger] bs[j];
        &&& b.wf()
        &&& b.entries@.len() >= 1
        &&& j > 0 ==> b.entries@.len() <= limit
        &&& forall|k: int| 0 <= k < b.entries@.len() ==> emitted_ok(recs, arenas, start, root, sent_before(bs, j) + k, bytes_of(b.names@), #[trigger] b.entries@[k])
    }
}

/// Emits a subtree as batches (see `Assembler`); `send` returning false
/// cancels. The orphan count is reported once every batch has gone out.
pub fn assemble<F: FnMut(EntryBatch) -> bool>(
    table: &Table,
    subtree: &[&str],
    root_path: &str,
    batch_size: usize,
    send: F,
) -> (r: Result<AssembleStats, ParseError>)
    requires
        table.records@.len() <= u32::MAX,
        forall|b: EntryBatch| call_requires(send, (b,)),
    ensures
        !root_ok(table.records@) ==> r == Err::<AssembleStats, ParseError>(ParseError("volume root record missing from $MFT")),
        root_ok(table.records@) && resolve(*table, ROOT_RECORD as int, comps_view(subtree@), 0) is None ==> r == Err::<AssembleStats, ParseError>(
            ParseError("scan root not found in $MFT"),
        ),
        root_ok(table.records@) && resolve(*table, ROOT_RECORD as int, comps_view(subtree@), 0) is Some ==> r is Ok,
        r matches Ok(stats) ==> assembled(*table, subtree@, stats),
        r is Ok && r->Ok_0.cancelled ==> exists|b: EntryBatch| call_ensures(send, (b,), false),
        r is Ok ==> exists|bs: Seq<EntryBatch>| {
            &&& #[trigger] batches_ok(
                table.records@,
                table.spec_arenas(),
                resolve(*table, ROOT_RECORD as int, comps_view(subtree@), 0)->0,
                root_path.spec_bytes(),
                limit_of(batch_size),
                bs,
            )
            &&& bs.len() >= 1
            &&& reported(table.records@, resolve(*table, ROOT_RECORD as int, comps_view(subtree@), 0)->0, sent_before(bs, bs.len() as int), r->Ok_0)
            &&& forall|j: int| 0 <= j < bs.len() ==> call_ensures(send, (#[trigger] bs[j],), j + 1 < bs.len() || !r->Ok_0.cancelled)
        },
{
    let mut a = match Assembler::new(table, subtree, root_path, batch_size) {
        Ok(a) => a,
        Err(e) => return Err(e),
    };
    let ghost recs = table.records@;
    let ghost start = a.start();
    let mut sender = send;
    let mut first = true;
    let ghost mut bs: Seq<EntryBatch> = Seq::empty();
    let ghost root = root_path.spec_bytes();
    let ghost limit: nat = limit_of(batch_size);
    loop
        invariant
            a.inv(),
            recs == table.records@,
            root_ok(recs),
            resolve(*table, ROOT_RECORD as int, comps_view(subtree@), 0) == Some(start),
            a.records() == recs,
            a.start() == start,
            first ==> a.sent() == 0 && !a.exhausted(),
            !first ==> a.sent() >= 1,
            forall|b: EntryBatch| call_requires(sender, (b,)),
            sender == send,
            a.arenas() == table.spec_arenas(),
            a.root_name() == root,
            a.batch_limit() == limit,
            root == root_path.spec_bytes(),
            limit == limit_of(batch_size),
            batches_ok(recs, table.spec_arenas(), start, root, limit, bs),
            sent_before(bs, bs.len() as int) == a.sent(),
            first <==> bs.len() == 0,
            forall|j: int| 0 <= j < bs.len() ==> call_ensures(send, (#[trigger] bs[j],), true),
        decreases emission(a.records(), a.start()).len() - a.sent(),
    {
        let ghost before = a.sent();
        match a.next_batch() {
            None => {
                let s = a.stats(false);
                proof {
                    assert(a.sent() == emission(recs, start).len());
                    assert(reported(recs, start, a.sent(), s));
                    assert(reported(table.records@, resolve(*table, ROOT_RECORD as int, comps_view(subtree@), 0)->0, a.sent(), s));
                    assert(batches_ok(recs, table.spec_arenas(), start, root, limit, bs));
                }
                return Ok(s);
            },
            Some(b) => {
                first = false;
                let ghost nb = bs.push(b);
                proof {
                    lemma_sent_before_push(bs, b, bs.len() as int);
                    assert forall|j: int| 0 <= j <= bs.len() implies sent_before(nb, j) == sent_before(bs, j) by {
                        lemma_sent_before_push(bs, b, j);
                    }
                    assert(sent_before(nb, nb.len() as int) == a.sent());
                    assert forall|j: int| 0 <= j < nb.len() implies {
                        let bj = #[trigger] nb[j];
                        &&& bj.wf()
                        &&& bj.entries@.len() >= 1
                        &&& j > 0 ==> bj.entries@.len() <= limit
                        &&& forall|k: int| 0 <= k < bj.entries@.len() ==> emitted_ok(recs, table.spec_arenas(), start, root, sent_before(nb, j) + k, bytes_of(bj.names@), #[trigger] bj.entries@[k])
                    } by {
                        if j < bs.len() {
                            assert(nb[j] == bs[j]);
                        } else {
                            assert(nb[j] == b);
                            assert(sent_before(nb, j) == before);
                        }
                    }
                    assert(batches_ok(recs, table.spec_arenas(), start, root, limit, nb));
                }
                let ok = sender(b);
                proof {
                    assert(call_ensures(send, (nb[nb.len() - 1],), ok));
                }
                if !ok {
                    let s = a.stats(true);
                    proof {
                        assert(reported(recs, start, a.sent(), s));
                        assert(reported(table.records@, resolve(*table, ROOT_RECORD as int, comps_view(subtree@), 0)->0, a.sent(), s));
                        assert forall|j: int| 0 <= j < nb.len() implies call_ensures(send, (#[trigger] nb[j],), j + 1 < nb.len() || !s.cancelled) by {
                            if j + 1 < nb.len() {
                                assert(nb[j] == bs[j]);
                            }
                        }
                        assert(batches_ok(recs, table.spec_arenas(), start, root, limit, nb));
                    }
                    return Ok(s);
                }
                proof {
                    assert forall|j: int| 0 <= j < nb.len() implies call_ensures(send, (#[trigger] nb[j],), true) by {
                        if j + 1 < nb.len() {
                            assert(nb[j] == bs[j]);
                        }
                    }
                    bs = nb;
                }
            },
        }
    }
}

proof fn lemma_sent_before_push(bs: Seq<EntryBatch>, b: EntryBatch, j: int)
    requires
        0 <= j <= bs.len(),
    ensures
        sent_before(bs.push(b), j) == sent_before(bs, j),
    decreases j,
{
    if j > 0 {
        lemma_sent_before_push(bs, b, j - 1);
        assert(bs.push(b)[j - 1] == bs[j - 1]);
    }
}


/// Sizes are reported truthfully, logical apart from allocated: every
/// emitted entry below the scan root that is neither a directory nor a
/// reparse point carries its record's unnamed-stream size as `size` and the
/// summed allocation of all its $DATA streams as `allocated_size`, the two
/// taken independently of each other; directories and reparse points carry
/// no bytes of their own.
pub proof fn lemma_sizes_reported_truthfully(
    recs: Seq<Slot>,
    arenas: Seq<Seq<char>>,
    start: int,
    root: Seq<u8>,
    id: int,
    names: Seq<u8>,
    e: FileEntry,
)
    requires
        emitted_ok(recs, arenas, start, root, id, names, e),
        id != 0,
    ensures
        ({
            let s = recs[emission(recs, start)[id]];
            &&& !e.flags.spec_is_dir() && !e.flags.has(EntryFlags::spec_reparse())
                ==> e.size == s.logical && e.allocated_size == s.alloc
            &&& e.flags.spec_is_dir() || e.flags.has(EntryFlags::spec_reparse()) ==> e.size == 0 && e.allocated_size == 0
        }),
{
}

/// The reported totals add up what the entries carry: handing out the
/// entry for record `r[k]` adds its record's allocation to the allocated
/// total and its logical size to the byte total, unless it is a directory
/// or a reparse point, which add nothing.
pub proof fn lemma_totals_count_each_entry(recs: Seq<Slot>, r: Seq<int>, k: int)
    requires
        k >= 1,
    ensures
        ({
            let s = recs[r[k]];
            let blank = out_flags(s).spec_is_dir() || out_flags(s).has(EntryFlags::spec_reparse());
            &&& alloc_upto(recs, r, k + 1) == alloc_upto(recs, r, k) + if blank { 0 } else { s.alloc as nat }
            &&& bytes_upto(recs, r, k + 1) == bytes_upto(recs, r, k) + if blank { 0 } else { s.logical as nat }
        }),
{
}

} // verus!
