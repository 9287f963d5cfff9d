//! The sweep of raw $MFT bytes into a flat record table.
//!
//! Buffers of whole FILE records are parsed in tasks of `TASK_RECORDS`
//! records; each task writes its slice of the slot table and fills a name
//! arena of its own. Extension-record contributions become patches applied
//! once at the end (`$ATTRIBUTE_LIST` is never parsed: a full sweep sees
//! every extension record anyway).

use vstd::prelude::*;
use vstd::string::StringSliceAdditionalSpecFns;

use crate::entry::EntryFlags;
use crate::ntfs::ParseError;
use crate::ntfs::record::{RecordFacts, lemma_record_parse_len, parse_record, record_parse, reparse_entry_flags};
use crate::text::{boundary, bytes_of, substr};

verus! {

/// `rank` value meaning "no $FILE_NAME seen".
pub const NO_NAME: u8 = 255;

/// Records per task.
pub const TASK_RECORDS: usize = 1024;

/// One MFT record's distilled facts, indexed by record number.
#[derive(Clone, Copy, Debug, PartialEq, Eq, Structural)]
pub struct Slot {
    pub parent_ref: u64,
    pub logical: u64,
    pub alloc: u64,
    pub mtime: i64,
    pub name_arena: u32,
    pub name_off: u32,
    pub name_len: u16,
    pub flags: EntryFlags,
    pub seq: u16,
    pub link_names: u16,
    pub rank: u8,
    /// Bit 0: an in-use base record. Bit 1: the unnamed stream's size is known.
    pub state: u8,
}

/// A slot no record has filled.
pub open spec fn empty_slot() -> Slot {
    Slot {
        parent_ref: 0,
        logical: 0,
        alloc: 0,
        mtime: 0,
        name_arena: 0,
        name_off: 0,
        name_len: 0,
        flags: EntryFlags(0),
        seq: 0,
        link_names: 0,
        rank: NO_NAME,
        state: 0,
    }
}

impl Slot {
    pub fn empty() -> (r: Slot)
        ensures
            r == empty_slot(),
    {
        Slot {
            parent_ref: 0,
            logical: 0,
            alloc: 0,
            mtime: 0,
            name_arena: 0,
            name_off: 0,
            name_len: 0,
            flags: EntryFlags(0),
            seq: 0,
            link_names: 0,
            rank: NO_NAME,
            state: 0,
        }
    }

    pub open spec fn spec_is_base(&self) -> bool {
        self.state & 1 != 0
    }

    pub open spec fn spec_has_logical(&self) -> bool {
        self.state & 2 != 0
    }

    /// An in-use base record (extension records only ever patch these).
    pub fn is_base(&self) -> (r: bool)
        ensures
            r == self.spec_is_base(),
    {
        self.state & 1 != 0
    }

    fn has_logical(&self) -> (r: bool)
        ensures
            r == self.spec_has_logical(),
    {
        self.state & 2 != 0
    }
}

/// The entry flags a reparse tag stands for.
pub open spec fn tag_flags(tag: u32) -> u16 {
    (if tag & 0x2000_0000 != 0 { 2u16 } else { 0u16 }) | (if tag == 0x8000_0017 { 8u16 } else { 0u16 }) | (if tag & 0xFFFF_0FFF
        == 0x9000_001A { 32u16 } else { 0u16 })
}

/// The slot a record's facts distill to, its name in arena `arena_idx`
/// (not yet marked as a base record).
pub open spec fn slot_of(f: RecordFacts, arena_idx: u32) -> Slot {
    let flags0: u16 = if f.is_dir { f.flags.0 | 1u16 } else { f.flags.0 };
    let s = Slot {
        logical: f.logical,
        alloc: f.alloc,
        mtime: f.mtime,
        flags: EntryFlags(flags0 | tag_flags(f.reparse_tag)),
        seq: f.seq,
        link_names: if f.link_names > 0xFFFF { 0xFFFFu16 } else { f.link_names as u16 },
        state: if f.has_logical { 2u8 } else { 0u8 },
        ..empty_slot()
    };
    match f.name {
        Some(n) => Slot { parent_ref: n.parent.0, rank: n.rank, name_arena: arena_idx, name_off: n.off, name_len: n.len, ..s },
        None => s,
    }
}

/// A base record's slot.
pub open spec fn base_slot(f: RecordFacts, arena_idx: u32) -> Slot {
    let s = slot_of(f, arena_idx);
    Slot { state: s.state | 1u8, ..s }
}

/// An extension record's contribution merged into its base record.
pub open spec fn merged(target: Slot, patch: Slot) -> Slot {
    let t1 = if patch.spec_has_logical() && !target.spec_has_logical() {
        Slot { logical: patch.logical, state: target.state | 2u8, ..target }
    } else {
        target
    };
    let t2 = Slot {
        alloc: if t1.alloc + patch.alloc > u64::MAX { u64::MAX } else { (t1.alloc + patch.alloc) as u64 },
        link_names: if t1.link_names + patch.link_names > 0xFFFF { 0xFFFFu16 } else { (t1.link_names + patch.link_names) as u16 },
        flags: EntryFlags(t1.flags.0 | patch.flags.0),
        ..t1
    };
    let t3 = if patch.rank < t2.rank {
        Slot {
            parent_ref: patch.parent_ref,
            rank: patch.rank,
            name_arena: patch.name_arena,
            name_off: patch.name_off,
            name_len: patch.name_len,
            ..t2
        }
    } else {
        t2
    };
    if t3.mtime == 0 {
        Slot { mtime: patch.mtime, ..t3 }
    } else {
        t3
    }
}

fn slot_of_exec(f: &RecordFacts, arena_idx: u32) -> (r: Slot)
    ensures
        r == slot_of(*f, arena_idx),
{
    let mut flags = f.flags;
    if f.is_dir {
        flags.insert(EntryFlags::dir());
    }
    let tf = reparse_entry_flags(f.reparse_tag);
    flags = flags.union(tf);
    let e = Slot::empty();
    let s = Slot {
        logical: f.logical,
        alloc: f.alloc,
        mtime: f.mtime,
        flags,
        seq: f.seq,
        link_names: if f.link_names > 0xFFFF { 0xFFFF } else { f.link_names as u16 },
        state: if f.has_logical { 2 } else { 0 },
        ..e
    };
    match f.name {
        Some(n) => Slot { parent_ref: n.parent.0, rank: n.rank, name_arena: arena_idx, name_off: n.off, name_len: n.len, ..s },
        None => s,
    }
}

fn merge(target: &mut Slot, patch: &Slot)
    ensures
        *final(target) == merged(*old(target), *patch),
{
    if patch.has_logical() && !target.has_logical() {
        target.logical = patch.logical;
        target.state = target.state | 2;
    }
    target.alloc = target.alloc.saturating_add(patch.alloc);
    target.link_names = target.link_names.saturating_add(patch.link_names);
    target.flags = target.flags.union(patch.flags);
    if patch.rank < target.rank {
        target.parent_ref = patch.parent_ref;
        target.rank = patch.rank;
        target.name_arena = patch.name_arena;
        target.name_off = patch.name_off;
        target.name_len = patch.name_len;
    }
    if target.mtime == 0 {
        target.mtime = patch.mtime;
    }
}

/// Record `k`'s bytes in a buffer of `rs`-byte records.
pub open spec fn rec_of(buf: Seq<u8>, rs: int, k: int) -> Seq<u8> {
    buf.subrange(k * rs, (k + 1) * rs)
}

/// The task arena as record `k` is parsed: what the earlier records of its
/// task appended.
pub open spec fn arena_at(buf: Seq<u8>, rs: int, k: int) -> Seq<char>
    decreases k,
{
    if k <= 0 || k % (TASK_RECORDS as int) == 0 {
        Seq::empty()
    } else {
        record_parse(rec_of(buf, rs, k - 1), arena_at(buf, rs, k - 1)).2
    }
}

/// What parsing record `k` gives.
pub open spec fn result_at(buf: Seq<u8>, rs: int, k: int) -> Result<Option<RecordFacts>, ParseError> {
    record_parse(rec_of(buf, rs, k), arena_at(buf, rs, k)).0
}

/// The task arena once record `k` is parsed.
pub open spec fn arena_after(buf: Seq<u8>, rs: int, k: int) -> Seq<char> {
    record_parse(rec_of(buf, rs, k), arena_at(buf, rs, k)).2
}

/// The slot table after the first `k` records of a buffer starting at
/// record `first`, whose tasks' arenas are numbered from `arena_base`.
pub open spec fn slots_after(old: Seq<Slot>, buf: Seq<u8>, rs: int, first: int, arena_base: int, k: int) -> Seq<Slot>
    decreases k,
{
    if k <= 0 {
        old
    } else {
        let prev = slots_after(old, buf, rs, first, arena_base, k - 1);
        match result_at(buf, rs, k - 1) {
            Ok(Some(f)) => if f.base == 0 {
                prev.update(first + k - 1, base_slot(f, (arena_base + (k - 1) / (TASK_RECORDS as int)) as u32))
            } else {
                prev
            },
            _ => prev,
        }
    }
}

/// The patches the first `k` records contribute, in order.
pub open spec fn patches_after(buf: Seq<u8>, rs: int, arena_base: int, k: int) -> Seq<(u64, Slot)>
    decreases k,
{
    if k <= 0 {
        Seq::empty()
    } else {
        let prev = patches_after(buf, rs, arena_base, k - 1);
        match result_at(buf, rs, k - 1) {
            Ok(Some(f)) => if f.base != 0 {
                prev.push((f.base, slot_of(f, (arena_base + (k - 1) / (TASK_RECORDS as int)) as u32)))
            } else {
                prev
            },
            _ => prev,
        }
    }
}

/// Torn records among the first `k`.
pub open spec fn torn_after(buf: Seq<u8>, rs: int, k: int) -> nat
    decreases k,
{
    if k <= 0 {
        0
    } else {
        torn_after(buf, rs, k - 1) + (if result_at(buf, rs, k - 1) is Err { 1nat } else { 0nat })
    }
}

/// Live-progress deltas from one consumed buffer (approximate: extension
/// patches land later; final stats come from the emit phase).
#[derive(Clone, Copy, Debug, Default, PartialEq, Eq, Structural)]
pub struct ChunkCounts {
    pub files: u64,
    pub dirs: u64,
    pub bytes: u64,
}

/// The counts of the first `k` records: base records only, bytes summed
/// with saturation.
pub open spec fn counts_after(buf: Seq<u8>, rs: int, k: int) -> ChunkCounts
    decreases k,
{
    if k <= 0 {
        ChunkCounts { files: 0, dirs: 0, bytes: 0 }
    } else {
        let c = counts_after(buf, rs, k - 1);
        match result_at(buf, rs, k - 1) {
            Ok(Some(f)) => if f.base != 0 {
                c
            } else if f.is_dir {
                ChunkCounts { dirs: (c.dirs + 1) as u64, ..c }
            } else {
                ChunkCounts {
                    files: (c.files + 1) as u64,
                    bytes: if c.bytes + f.logical > u64::MAX { u64::MAX } else { (c.bytes + f.logical) as u64 },
                    ..c
                }
            },
            _ => c,
        }
    }
}

/// The arenas the tasks of a buffer of `n` records fill, in task order.
pub open spec fn task_arenas(buf: Seq<u8>, rs: int, n: int) -> Seq<Seq<char>> {
    let t = TASK_RECORDS as int;
    Seq::new(((n + t - 1) / t) as nat, |i: int| arena_after(buf, rs, if (i + 1) * t < n { (i + 1) * t - 1 } else { n - 1 }))
}

/// The buffer after each record's fixups.
pub open spec fn fixed_after(buf: Seq<u8>, rs: int, k: int) -> Seq<u8>
    decreases k,
{
    if k <= 0 {
        buf
    } else {
        let prev = fixed_after(buf, rs, k - 1);
        let fixed = record_parse(rec_of(buf, rs, k - 1), arena_at(buf, rs, k - 1)).1;
        prev.subrange(0, (k - 1) * rs) + fixed + prev.subrange(k * rs, prev.len() as int)
    }
}

/// Streaming sweep state. Feed record-aligned buffers in any order via
/// `consume`, then `finish` to apply extension patches.
pub struct Sweep {
    records: Vec<Slot>,
    arenas: Vec<String>,
    patches: Vec<(u64, Slot)>,
    record_size: usize,
    torn: u64,
}

pub open spec fn arenas_view(v: Seq<String>) -> Seq<Seq<char>> {
    v.map_values(|s: String| s@)
}

impl Sweep {
    pub closed spec fn spec_records(&self) -> Seq<Slot> {
        self.records@
    }

    pub closed spec fn spec_arenas(&self) -> Seq<Seq<char>> {
        arenas_view(self.arenas@)
    }

    pub closed spec fn spec_patches(&self) -> Seq<(u64, Slot)> {
        self.patches@
    }

    pub closed spec fn spec_record_size(&self) -> nat {
        self.record_size as nat
    }

    pub closed spec fn spec_torn(&self) -> nat {
        self.torn as nat
    }

    pub fn new(total_records: usize, record_size: usize) -> (r: Self)
        requires
            record_size >= 512,
            vstd::arithmetic::power2::is_pow2(record_size as int),
            total_records <= u32::MAX,
        ensures
            r.spec_records() == Seq::new(total_records as nat, |i: int| empty_slot()),
            r.spec_arenas() == Seq::<Seq<char>>::empty(),
            r.spec_patches() == Seq::<(u64, Slot)>::empty(),
            r.spec_record_size() == record_size,
            r.spec_torn() == 0,
    {
        let mut records: Vec<Slot> = Vec::new();
        let mut i: usize = 0;
        while i < total_records
            invariant
                i <= total_records,
                records@ == Seq::new(i as nat, |j: int| empty_slot()),
            decreases total_records - i,
        {
            records.push(Slot::empty());
            i = i + 1;
            proof {
                assert(records@ =~= Seq::new(i as nat, |j: int| empty_slot()));
            }
        }
        let r = Sweep { records, arenas: Vec::new(), patches: Vec::new(), record_size, torn: 0 };
        proof {
            assert(r.spec_arenas() =~= Seq::<Seq<char>>::empty());
        }
        r
    }
}

proof fn lemma_slots_after_len(old: Seq<Slot>, buf: Seq<u8>, rs: int, first: int, arena_base: int, k: int)
    requires
        0 <= first,
        first + k <= old.len(),
    ensures
        slots_after(old, buf, rs, first, arena_base, k).len() == old.len(),
    decreases k,
{
    if k > 0 {
        lemma_slots_after_len(old, buf, rs, first, arena_base, k - 1);
    }
}

/// Closing a task appends its arena.
proof fn lemma_push_task_arena(b0: Seq<u8>, rs: int, n: int, k: int, a0: Seq<Seq<char>>, before: Seq<Seq<char>>)
    requires
        0 <= k < n,
        (k + 1) % (TASK_RECORDS as int) == 0 || k + 1 == n,
        before == a0 + task_arenas(b0, rs, n).take(k / (TASK_RECORDS as int)),
    ensures
        k + 1 < n ==> before.push(arena_after(b0, rs, k)) == a0 + task_arenas(b0, rs, n).take((k + 1) / (TASK_RECORDS as int)),
        k + 1 == n ==> before.push(arena_after(b0, rs, k)) == a0 + task_arenas(b0, rs, n),
{
    let t = TASK_RECORDS as int;
    let ta = task_arenas(b0, rs, n);
    let i = k / t;
    assert(i * t <= k < (i + 1) * t) by (nonlinear_arith)
        requires
            i == k / t,
            t == 1024,
            k >= 0,
    ;
    assert(i < (n + t - 1) / t) by (nonlinear_arith)
        requires
            i * t <= k,
            k < n,
            t == 1024,
    ;
    assert((k + 1) % t == 0 ==> (i + 1) * t == k + 1) by (nonlinear_arith)
        requires
            i * t <= k < (i + 1) * t,
            t == 1024,
    ;
    assert(ta.len() == (n + t - 1) / t);
    assert(ta[i] == arena_after(b0, rs, if (i + 1) * t < n { (i + 1) * t - 1 } else { n - 1 }));
    assert(ta[i] == arena_after(b0, rs, k));
    if k + 1 < n {
        assert((k + 1) / t == i + 1) by (nonlinear_arith)
            requires
                (i + 1) * t == k + 1,
                t == 1024,
        ;
        assert(before.push(arena_after(b0, rs, k)) =~= a0 + ta.take(i + 1));
    } else {
        assert((n + t - 1) / t == i + 1) by (nonlinear_arith)
            requires
                n == k + 1,
                i * t <= k < (i + 1) * t,
                t == 1024,
        ;
        assert(before.push(arena_after(b0, rs, k)) =~= a0 + ta);
    }
}

/// Within a task, the next record sees the arena the last one left.
proof fn lemma_same_task(b0: Seq<u8>, rs: int, k: int)
    requires
        0 <= k,
        (k + 1) % (TASK_RECORDS as int) != 0,
    ensures
        (k + 1) / (TASK_RECORDS as int) == k / (TASK_RECORDS as int),
        arena_at(b0, rs, k + 1) == arena_after(b0, rs, k),
{
    let t = TASK_RECORDS as int;
    assert((k + 1) / t == k / t) by (nonlinear_arith)
        requires
            (k + 1) % t != 0,
            k >= 0,
            t == 1024,
    ;
}

/// Fixing up the first `k` records leaves the rest of the buffer as it was.
proof fn lemma_fixed_after(buf: Seq<u8>, rs: int, n: int, k: int)
    requires
        rs >= 1,
        0 <= k <= n,
        n * rs == buf.len(),
    ensures
        fixed_after(buf, rs, k).len() == buf.len(),
        fixed_after(buf, rs, k).subrange(k * rs, buf.len() as int) == buf.subrange(k * rs, buf.len() as int),
    decreases k,
{
    if k > 0 {
        lemma_fixed_after(buf, rs, n, k - 1);
        let prev = fixed_after(buf, rs, k - 1);
        lemma_record_parse_len(rec_of(buf, rs, k - 1), arena_at(buf, rs, k - 1));
        assert((k - 1) * rs + rs == k * rs) by (nonlinear_arith);
        assert(k * rs <= n * rs) by (nonlinear_arith)
            requires
                k <= n,
                rs >= 1,
        ;
        assert(0 <= (k - 1) * rs) by (nonlinear_arith)
            requires
                k >= 1,
                rs >= 1,
        ;
        let cur = fixed_after(buf, rs, k);
        assert(cur.subrange(k * rs, buf.len() as int) =~= prev.subrange(k * rs, buf.len() as int));
        assert(prev.subrange(k * rs, buf.len() as int) =~= prev.subrange((k - 1) * rs, buf.len() as int).subrange(rs, buf.len() - (k - 1) * rs));
        assert(buf.subrange(k * rs, buf.len() as int) =~= buf.subrange((k - 1) * rs, buf.len() as int).subrange(rs, buf.len() - (k - 1) * rs));
    }
}

/// A copy of `buf[start..start + len]`.
fn copy_out(buf: &Vec<u8>, start: usize, len: usize) -> (r: Vec<u8>)
    requires
        start + len <= buf@.len(),
    ensures
        r@ == buf@.subrange(start as int, start + len),
{
    let mut rec: Vec<u8> = Vec::new();
    let bl = buf.len();
    let mut i: usize = 0;
    while i < len
        invariant
            i <= len,
            bl == buf@.len(),
            start + len <= buf@.len(),
            rec@ == buf@.subrange(start as int, start + i),
        decreases len - i,
    {
        rec.push(buf[start + i]);
        i = i + 1;
        proof {
            assert(rec@ =~= buf@.subrange(start as int, start + i));
        }
    }
    rec
}

/// Writes `rec` back over `buf[start..]`.
fn copy_in(buf: &mut Vec<u8>, start: usize, rec: &Vec<u8>)
    requires
        start + rec@.len() <= old(buf)@.len(),
    ensures
        final(buf)@ == old(buf)@.subrange(0, start as int) + rec@ + old(buf)@.subrange(start + rec@.len(), old(buf)@.len() as int),
{
    let ghost b = buf@;
    let n = rec.len();
    let bl = buf.len();
    let mut i: usize = 0;
    while i < n
        invariant
            i <= n,
            bl == b.len(),
            n == rec@.len(),
            start + n <= b.len(),
            buf@ == b.subrange(0, start as int) + rec@.subrange(0, i as int) + b.subrange(start + i, b.len() as int),
        decreases n - i,
    {
        buf.set(start + i, rec[i]);
        i = i + 1;
        proof {
            assert(buf@ =~= b.subrange(0, start as int) + rec@.subrange(0, i as int) + b.subrange(start + i, b.len() as int));
        }
    }
    proof {
        assert(rec@.subrange(0, n as int) =~= rec@);
    }
}

impl Sweep {
    /// Parses record `k` of the buffer and files what it gives.
    #[verifier::rlimit(40)]
    fn consume_record(
        &mut self,
        buf: &mut Vec<u8>,
        arena: &mut String,
        counts: &mut ChunkCounts,
        first_record: usize,
        arena_base: usize,
        k: usize,
        n: usize,
        Ghost(b0): Ghost<Seq<u8>>,
        Ghost(r0): Ghost<Seq<Slot>>,
        Ghost(p0): Ghost<Seq<(u64, Slot)>>,
        Ghost(t0): Ghost<nat>,
    )
        requires
            old(self).record_size >= 512,
            n * old(self).record_size == b0.len(),
            k < n,
            first_record + n <= r0.len(),
            arena_base + n <= u32::MAX,
            t0 + b0.len() <= u64::MAX,
            old(buf)@ == fixed_after(b0, old(self).record_size as int, k as int),
            old(self).records@ == slots_after(r0, b0, old(self).record_size as int, first_record as int, arena_base as int, k as int),
            old(self).patches@ == p0 + patches_after(b0, old(self).record_size as int, arena_base as int, k as int),
            old(self).torn == t0 + torn_after(b0, old(self).record_size as int, k as int),
            torn_after(b0, old(self).record_size as int, k as int) <= k,
            *old(counts) == counts_after(b0, old(self).record_size as int, k as int),
            old(counts).files + old(counts).dirs <= k,
            old(arena)@ == arena_at(b0, old(self).record_size as int, k as int),
        ensures
            final(self).record_size == old(self).record_size,
            final(self).arenas == old(self).arenas,
            final(buf)@ == fixed_after(b0, old(self).record_size as int, k + 1),
            final(self).records@ == slots_after(r0, b0, old(self).record_size as int, first_record as int, arena_base as int, k + 1),
            final(self).patches@ == p0 + patches_after(b0, old(self).record_size as int, arena_base as int, k + 1),
            final(self).torn == t0 + torn_after(b0, old(self).record_size as int, k + 1),
            torn_after(b0, old(self).record_size as int, k + 1) <= k + 1,
            *final(counts) == counts_after(b0, old(self).record_size as int, k + 1),
            final(counts).files + final(counts).dirs <= k + 1,
            final(arena)@ == arena_after(b0, old(self).record_size as int, k as int),
    {
        let rs = self.record_size;
        let ghost rsi = rs as int;
        let bl = buf.len();
        proof {
            lemma_fixed_after(b0, rsi, n as int, k as int);
            assert(k * rs + rs <= n * rs) by (nonlinear_arith)
                requires
                    k < n,
            ;
            assert((k + 1) * rs == k * rs + rs) by (nonlinear_arith);
        }
        let start = k * rs;
        let mut rec = copy_out(buf, start, rs);
        proof {
            let fa = fixed_after(b0, rsi, k as int);
            assert(rec@ =~= fa.subrange(k * rsi, b0.len() as int).subrange(0, rsi));
            assert(rec@ =~= rec_of(b0, rsi, k as int));
        }
        let ghost arena0 = arena@;
        let res = parse_record(rec.as_mut_slice(), arena);
        proof {
            lemma_record_parse_len(rec_of(b0, rsi, k as int), arena0);
        }
        copy_in(buf, start, &rec);
        proof {
            assert(buf@ =~= fixed_after(b0, rsi, k + 1));
        }
        proof {
            lemma_slots_after_len(r0, b0, rsi, first_record as int, arena_base as int, k as int);
            assert(k < b0.len()) by (nonlinear_arith)
                requires
                    k < n,
                    n * rs == b0.len(),
                    rs >= 512,
            ;
            assert(res == result_at(b0, rsi, k as int));
        }
        self.file_result(res, counts, first_record, arena_base, k, Ghost(b0), Ghost(r0), Ghost(p0), Ghost(t0));
    }

    /// Files what parsing record `k` gave: a base slot, a patch, or a torn
    /// record.
    fn file_result(
        &mut self,
        res: Result<Option<RecordFacts>, ParseError>,
        counts: &mut ChunkCounts,
        first_record: usize,
        arena_base: usize,
        k: usize,
        Ghost(b0): Ghost<Seq<u8>>,
        Ghost(r0): Ghost<Seq<Slot>>,
        Ghost(p0): Ghost<Seq<(u64, Slot)>>,
        Ghost(t0): Ghost<nat>,
    )
        requires
            res == result_at(b0, old(self).record_size as int, k as int),
            first_record + k < r0.len(),
            old(self).records@.len() == r0.len(),
            arena_base + k < u32::MAX,
            t0 + k < u64::MAX,
            old(self).records@ == slots_after(r0, b0, old(self).record_size as int, first_record as int, arena_base as int, k as int),
            old(self).patches@ == p0 + patches_after(b0, old(self).record_size as int, arena_base as int, k as int),
            old(self).torn == t0 + torn_after(b0, old(self).record_size as int, k as int),
            torn_after(b0, old(self).record_size as int, k as int) <= k,
            *old(counts) == counts_after(b0, old(self).record_size as int, k as int),
            old(counts).files + old(counts).dirs <= k,
        ensures
            final(self).record_size == old(self).record_size,
            final(self).arenas == old(self).arenas,
            final(self).records@ == slots_after(r0, b0, old(self).record_size as int, first_record as int, arena_base as int, k + 1),
            final(self).patches@ == p0 + patches_after(b0, old(self).record_size as int, arena_base as int, k + 1),
            final(self).torn == t0 + torn_after(b0, old(self).record_size as int, k + 1),
            torn_after(b0, old(self).record_size as int, k + 1) <= k + 1,
            *final(counts) == counts_after(b0, old(self).record_size as int, k + 1),
            final(counts).files + final(counts).dirs <= k + 1,
    {
        let ghost rsi = self.record_size as int;
        let rl = self.records.len();
        let arena_idx = (arena_base + k / TASK_RECORDS) as u32;
        match res {
            Ok(Some(f)) => {
                if f.base != 0 {
                    let s = slot_of_exec(&f, arena_idx);
                    self.patches.push((f.base, s));
                } else {
                    let s0 = slot_of_exec(&f, arena_idx);
                    let s = Slot { state: s0.state | 1, ..s0 };
                    self.records.set(first_record + k, s);
                    if f.is_dir {
                        counts.dirs = counts.dirs + 1;
                    } else {
                        counts.files = counts.files + 1;
                        counts.bytes = counts.bytes.saturating_add(f.logical);
                    }
                }
            },
            Ok(None) => {},
            Err(_) => {
                self.torn = self.torn + 1;
            },
        }
        proof {
            assert(self.patches@ =~= p0 + patches_after(b0, rsi, arena_base as int, k + 1));
        }
    }

    /// Parses one buffer of whole records starting at record number
    /// `first_record`, one task of `TASK_RECORDS` records after another.
    /// Buffers may arrive in any order but must not overlap.
    #[verifier::rlimit(60)]
    pub fn consume(&mut self, first_record: usize, buf: &mut Vec<u8>) -> (c: ChunkCounts)
        requires
            old(self).spec_record_size() >= 512,
            old(buf)@.len() % old(self).spec_record_size() == 0,
            first_record + old(buf)@.len() / old(self).spec_record_size() <= old(self).spec_records().len(),
            old(self).spec_arenas().len() + old(buf)@.len() / old(self).spec_record_size() <= u32::MAX,
            old(self).spec_torn() + old(buf)@.len() <= u64::MAX,
        ensures
            ({
                let rs = old(self).spec_record_size() as int;
                let n = (old(buf)@.len() / old(self).spec_record_size()) as int;
                let ab = old(self).spec_arenas().len() as int;
                &&& final(self).spec_record_size() == old(self).spec_record_size()
                &&& final(self).spec_records() == slots_after(old(self).spec_records(), old(buf)@, rs, first_record as int, ab, n)
                &&& final(self).spec_arenas() == old(self).spec_arenas() + task_arenas(old(buf)@, rs, n)
                &&& final(self).spec_patches() == old(self).spec_patches() + patches_after(old(buf)@, rs, ab, n)
                &&& final(self).spec_torn() == old(self).spec_torn() + torn_after(old(buf)@, rs, n)
                &&& c == counts_after(old(buf)@, rs, n)
                &&& final(buf)@ == fixed_after(old(buf)@, rs, n)
            }),
    {
        let rs = self.record_size;
        let n = buf.len() / rs;
        let ghost b0 = buf@;
        let ghost r0 = self.records@;
        let ghost a0 = arenas_view(self.arenas@);
        let ghost p0 = self.patches@;
        let ghost t0 = self.torn as nat;
        let arena_base = self.arenas.len();
        let mut arena = String::new();
        let mut counts = ChunkCounts { files: 0, dirs: 0, bytes: 0 };
        let mut k: usize = 0;
        proof {
            assert(n * rs == b0.len()) by (nonlinear_arith)
                requires
                    n == b0.len() / (rs as nat),
                    b0.len() % (rs as nat) == 0,
                    rs >= 512,
            ;
            assert(arenas_view(self.arenas@) =~= a0 + task_arenas(b0, rs as int, 0).take(0));
            assert(self.patches@ =~= p0 + Seq::<(u64, Slot)>::empty());
        }
        while k < n
            invariant
                rs == self.record_size,
                rs >= 512,
                n * rs == b0.len(),
                first_record + n <= r0.len(),
                arena_base + n <= u32::MAX,
                t0 + b0.len() <= u64::MAX,
                arena_base == a0.len(),
                k <= n,
                buf@ == fixed_after(b0, rs as int, k as int),
                self.records@ == slots_after(r0, b0, rs as int, first_record as int, arena_base as int, k as int),
                self.patches@ == p0 + patches_after(b0, rs as int, arena_base as int, k as int),
                self.torn == t0 + torn_after(b0, rs as int, k as int),
                torn_after(b0, rs as int, k as int) <= k,
                counts == counts_after(b0, rs as int, k as int),
                counts.files + counts.dirs <= k,
                k < n ==> arena@ == arena_at(b0, rs as int, k as int),
                k < n ==> arenas_view(self.arenas@) == a0 + task_arenas(b0, rs as int, n as int).take((k / TASK_RECORDS) as int),
                k == n ==> arenas_view(self.arenas@) == a0 + task_arenas(b0, rs as int, n as int),
            decreases n - k,
        {
            self.consume_record(buf, &mut arena, &mut counts, first_record, arena_base, k, n, Ghost(b0), Ghost(r0), Ghost(p0), Ghost(t0));
            let ghost ki = k as int;
            if (k + 1) % TASK_RECORDS == 0 || k + 1 == n {
                let full = arena;
                arena = String::new();
                let ghost before = arenas_view(self.arenas@);
                self.arenas.push(full);
                proof {
                    assert(arenas_view(self.arenas@) =~= before.push(full@));
                    lemma_push_task_arena(b0, rs as int, n as int, ki, a0, before);
                }
            } else {
                proof {
                    lemma_same_task(b0, rs as int, ki);
                }
            }
            k = k + 1;
        }
        counts
    }
}

/// The slot table after the first `i` patches, and how many of those found
/// no live base record.
pub open spec fn apply_patches(records: Seq<Slot>, patches: Seq<(u64, Slot)>, i: int) -> (Seq<Slot>, nat)
    decreases i,
{
    if i <= 0 {
        (records, 0)
    } else {
        let (r, d) = apply_patches(records, patches, i - 1);
        let (base, p) = patches[i - 1];
        if base < r.len() && r[base as int].spec_is_base() {
            (r.update(base as int, merged(r[base as int], p)), d)
        } else {
            (r, d + 1)
        }
    }
}

/// The sweep's final output: the slot table plus the name arenas the slots
/// point into.
pub struct Table {
    pub records: Vec<Slot>,
    pub arenas: Vec<String>,
    /// Torn/corrupt records skipped during parsing.
    pub torn: u64,
    /// Extension-record patches whose base record wasn't live.
    pub dropped_patches: u64,
}

/// The name bytes a slot points at: its arena's bytes at
/// `name_off .. name_off + name_len`, or nothing when that is no slice of a
/// known arena.
pub open spec fn slot_name(arenas: Seq<Seq<char>>, s: Slot) -> Seq<u8> {
    if s.name_arena < arenas.len() {
        let b = bytes_of(arenas[s.name_arena as int]);
        let a = s.name_off as int;
        let e = s.name_off + s.name_len;
        if e <= b.len() && boundary(b, a) && boundary(b, e) {
            b.subrange(a, e)
        } else {
            Seq::empty()
        }
    } else {
        Seq::empty()
    }
}

impl Table {
    pub open spec fn spec_arenas(&self) -> Seq<Seq<char>> {
        arenas_view(self.arenas@)
    }

    /// The name a slot points at (see `slot_name`).
    pub fn name(&self, slot: &Slot) -> (r: &str)
        ensures
            r.spec_bytes() == slot_name(self.spec_arenas(), *slot),
    {
        let i = slot.name_arena as usize;
        if i >= self.arenas.len() {
            proof {
                reveal_strlit("");
            }
            return "";
        }
        let arena = self.arenas[i].as_str();
        let ghost b = arena.spec_bytes();
        let blen = crate::text::byte_len(arena);
        let e64 = slot.name_off as u64 + slot.name_len as u64;
        proof {
            assert(self.spec_arenas()[i as int] == arena@);
            vstd::utf8::encode_utf8_valid_utf8(arena@);
        }
        if e64 > blen as u64 {
            proof {
                reveal_strlit("");
            }
            return "";
        }
        let a = slot.name_off as usize;
        let e = e64 as usize;
        proof {
            crate::text::lemma_boundary_is_char_boundary(b, a as int);
            crate::text::lemma_boundary_is_char_boundary(b, e as int);
        }
        if !arena.is_char_boundary(a) || !arena.is_char_boundary(e) {
            proof {
                reveal_strlit("");
            }
            return "";
        }
        substr(arena, a, slot.name_len as usize)
    }
}

impl Sweep {
    /// Applies extension-record patches to their base records.
    pub fn finish(self) -> (t: Table)
        ensures
            t.records@ == apply_patches(self.spec_records(), self.spec_patches(), self.spec_patches().len() as int).0,
            t.dropped_patches == apply_patches(self.spec_records(), self.spec_patches(), self.spec_patches().len() as int).1,
            t.spec_arenas() == self.spec_arenas(),
            t.torn == self.spec_torn(),
    {
        let Sweep { records, arenas, patches, record_size: _, torn } = self;
        let mut records = records;
        let mut dropped: u64 = 0;
        let mut i: usize = 0;
        while i < patches.len()
            invariant
                i <= patches@.len(),
                (records@, dropped as nat) == apply_patches(self.records@, patches@, i as int),
                dropped <= i,
                patches@ == self.patches@,
            decreases patches@.len() - i,
        {
            let (base, patch) = patches[i];
            if (base as usize) < records.len() && base <= usize::MAX as u64 && records[base as usize].is_base() {
                let mut target = records[base as usize];
                merge(&mut target, &patch);
                records.set(base as usize, target);
            } else {
                dropped = dropped + 1;
            }
            i = i + 1;
        }
        Table { records, arenas, torn, dropped_patches: dropped }
    }
}

} // verus!
