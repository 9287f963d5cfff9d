//! FILE-record parsing: fixup application and the attribute walk. Every
//! offset and length read from disk bytes is bounds-checked before use;
//! names are decoded from UTF-16 and appended to a caller-owned arena.

use vstd::prelude::*;
use vstd::string::StringSliceAdditionalSpecFns;
use vstd::utf8::is_scalar;

use crate::entry::EntryFlags;
use crate::ntfs::runs::{Extent, decode_runs, run_list};
use crate::ntfs::{ParseError, le_at, u16_at, u32_at, u64_at};
use crate::text::{byte_len, bytes_of, char_from_u32, push_char};

verus! {

/// The volume root directory is always FILE record 5.
pub const ROOT_RECORD: u64 = 5;

/// A packed MFT reference: 48-bit record number + 16-bit sequence.
#[derive(Clone, Copy, Debug, Default, PartialEq, Eq, Structural)]
pub struct RecordRef(pub u64);

impl RecordRef {
    pub fn number(self) -> (r: u64)
        ensures
            r == self.0 % 0x1_0000_0000_0000,
    {
        let x = self.0;
        proof {
            assert(x & 0xFFFF_FFFF_FFFF == x % 0x1_0000_0000_0000) by (bit_vector);
        }
        x & 0x0000_FFFF_FFFF_FFFF
    }

    pub fn sequence(self) -> (r: u16)
        ensures
            r == self.0 / 0x1_0000_0000_0000,
    {
        let x = self.0;
        proof {
            assert(x >> 48 == x / 0x1_0000_0000_0000) by (bit_vector);
            assert(x >> 48 < 0x10000) by (bit_vector);
        }
        (x >> 48) as u16
    }
}

/// One chosen file name: where it lives in the name arena and which parent
/// it links to. `rank` orders namespaces (Win32 best, DOS 8.3 last) so a
/// better name replaces a worse one during the walk.
#[derive(Clone, Copy, Debug, PartialEq, Eq, Structural)]
pub struct NameFact {
    pub parent: RecordRef,
    pub rank: u8,
    pub off: u32,
    pub len: u16,
}

/// Everything one FILE record contributes to the tree. For extension
/// records (`base != 0`) the caller routes these facts to the base record.
#[derive(Clone, Copy, Debug, PartialEq, Eq, Structural)]
pub struct RecordFacts {
    /// Base record number; 0 means this *is* a base record.
    pub base: u64,
    pub seq: u16,
    pub is_dir: bool,
    pub mtime: i64,
    /// Unnamed $DATA real size.
    pub logical: u64,
    pub has_logical: bool,
    /// Sum of allocated bytes over all streams (unnamed and named);
    /// resident data counts 0.
    pub alloc: u64,
    pub reparse_tag: u32,
    /// Non-DOS $FILE_NAME count: more than one on a base record means hardlinks.
    pub link_names: u32,
    pub name: Option<NameFact>,
    pub flags: EntryFlags,
}

pub const ATTR_STANDARD_INFORMATION: u32 = 0x10;

pub const ATTR_FILE_NAME: u32 = 0x30;

pub const ATTR_DATA: u32 = 0x80;

pub const ATTR_REPARSE_POINT: u32 = 0xC0;

pub const ATTR_END: u32 = 0xFFFF_FFFF;

pub const NS_DOS: u8 = 2;

// ----- the format -----

/// The magic of a FILE record: "FILE".
pub open spec fn file_magic() -> Seq<u8> {
    seq![0x46u8, 0x49u8, 0x4Cu8, 0x45u8]
}

/// FILETIME (100 ns ticks since 1601) as Unix seconds, truncated toward
/// zero; 0 stays 0 ("unknown").
pub open spec fn unix_time(ft: u64) -> int {
    let d = ft - 116_444_736_000_000_000int;
    if ft == 0 {
        0
    } else if d >= 0 {
        d / 10_000_000
    } else {
        -((-d) / 10_000_000)
    }
}

/// The value bytes of a resident attribute `a`; `None` if non-resident.
pub open spec fn resident_value(a: Seq<u8>) -> Result<Option<Seq<u8>>, ParseError> {
    if a[8] != 0 {
        Ok(None)
    } else {
        let vlen = le_at(a, 16, 4);
        let voff = le_at(a, 20, 2);
        if voff < 24 || voff + vlen > a.len() {
            Err(ParseError("resident value out of bounds"))
        } else {
            Ok(Some(a.subrange(voff as int, (voff + vlen) as int)))
        }
    }
}

/// $STANDARD_INFORMATION: the modification time and the SYSTEM attribute.
pub open spec fn std_info_step(a: Seq<u8>, f: RecordFacts) -> Result<RecordFacts, ParseError> {
    match resident_value(a) {
        Err(e) => Err(e),
        Ok(None) => Ok(f),
        Ok(Some(v)) => if v.len() < 0x24 {
            Err(ParseError("standard-information value truncated"))
        } else {
            let f1 = RecordFacts { mtime: unix_time(le_at(v, 8, 8) as u64) as i64, ..f };
            if (le_at(v, 0x20, 4) as u32) & 4 != 0 {
                Ok(RecordFacts { flags: EntryFlags(f.flags.0 | 128), ..f1 })
            } else {
                Ok(f1)
            }
        },
    }
}

/// Win32 (and Win32&DOS) beat POSIX beat DOS 8.3.
pub open spec fn spec_name_rank(ns: u8) -> u8 {
    if ns == 1 || ns == 3 {
        0
    } else if ns == 0 {
        1
    } else if ns == 2 {
        2
    } else {
        3
    }
}

pub open spec fn is_high_surrogate(u: u16) -> bool {
    0xD800 <= u <= 0xDBFF
}

pub open spec fn is_low_surrogate(u: u16) -> bool {
    0xDC00 <= u <= 0xDFFF
}

/// UTF-16 decoding of `units[i..]`; an unpaired surrogate becomes U+FFFD.
pub open spec fn decode_utf16(units: Seq<u16>, i: int) -> Seq<char>
    decreases units.len() - i,
{
    if i < 0 || i >= units.len() {
        Seq::empty()
    } else {
        let u = units[i];
        if !is_high_surrogate(u) && !is_low_surrogate(u) {
            seq![(u as u32) as char] + decode_utf16(units, i + 1)
        } else if is_high_surrogate(u) && i + 1 < units.len() && is_low_surrogate(units[i + 1]) {
            let c = (0x10000 + (u - 0xD800) * 0x400 + (units[i + 1] - 0xDC00)) as u32;
            seq![c as char] + decode_utf16(units, i + 2)
        } else {
            seq!['\u{FFFD}'] + decode_utf16(units, i + 1)
        }
    }
}

/// The `n` little-endian UTF-16 units at `off`.
pub open spec fn units_at(v: Seq<u8>, off: int, n: int) -> Seq<u16> {
    Seq::new(n as nat, |k: int| le_at(v, off + 2 * k, 2) as u16)
}

/// $FILE_NAME: counts non-DOS names and keeps the best-ranked one, whose
/// text is appended to the arena.
pub open spec fn name_step(a: Seq<u8>, f: RecordFacts, arena: Seq<char>) -> (Result<RecordFacts, ParseError>, Seq<char>) {
    match resident_value(a) {
        Err(e) => (Err(e), arena),
        Ok(None) => (Ok(f), arena),
        Ok(Some(v)) => if v.len() < 0x42 {
            (Err(ParseError("file-name value truncated")), arena)
        } else {
            let chars = v[0x40] as int;
            let ns = v[0x41];
            if 0x42 + 2 * chars > v.len() {
                (Err(ParseError("file-name string out of bounds")), arena)
            } else {
                let links = if ns != NS_DOS { (f.link_names + 1) as u32 } else { f.link_names };
                let rank = spec_name_rank(ns);
                let better = match f.name {
                    None => true,
                    Some(n) => rank < n.rank,
                };
                if better {
                    let grown = arena + decode_utf16(units_at(v, 0x42, chars), 0);
                    let off = bytes_of(arena).len() as u32;
                    let len = (bytes_of(grown).len() - off) as u16;
                    let name = NameFact { parent: RecordRef(le_at(v, 0, 8) as u64), rank, off, len };
                    (Ok(RecordFacts { link_names: links, name: Some(name), ..f }), grown)
                } else {
                    (Ok(RecordFacts { link_names: links, ..f }), arena)
                }
            }
        },
    }
}

/// $DATA: the unnamed stream's size (the first seen), and every stream's
/// allocation summed with saturation. Continuation fragments add nothing.
pub open spec fn data_step(a: Seq<u8>, f: RecordFacts) -> Result<RecordFacts, ParseError> {
    let named = a[9] != 0;
    if a[8] == 0 {
        match resident_value(a) {
            Err(e) => Err(e),
            Ok(v) => {
                let n = match v {
                    Some(bytes) => bytes.len(),
                    None => 0,
                };
                if !named && !f.has_logical {
                    Ok(RecordFacts { logical: n as u64, has_logical: true, ..f })
                } else {
                    Ok(f)
                }
            },
        }
    } else if a.len() < 64 {
        Err(ParseError("non-resident header truncated"))
    } else if le_at(a, 16, 8) != 0 {
        Ok(f)
    } else {
        let cu = le_at(a, 34, 2);
        if cu != 0 && a.len() < 72 {
            Err(ParseError("compressed data header truncated"))
        } else {
            let alloc = if cu != 0 { le_at(a, 64, 8) } else { le_at(a, 40, 8) };
            let sum = f.alloc + alloc;
            let f1 = RecordFacts { alloc: if sum > u64::MAX { u64::MAX } else { sum as u64 }, ..f };
            if !named && !f.has_logical {
                let af = le_at(a, 12, 2) as u16;
                let c = if af & 0xFF != 0 { 8u16 } else { 0u16 };
                let s = if af & 0x8000 != 0 { 16u16 } else { 0u16 };
                Ok(RecordFacts { logical: le_at(a, 48, 8) as u64, has_logical: true, flags: EntryFlags(f.flags.0 | c | s), ..f1 })
            } else {
                Ok(f1)
            }
        }
    }
}

/// $REPARSE_POINT: the tag, when the value is resident and holds one.
pub open spec fn reparse_step(a: Seq<u8>, f: RecordFacts) -> RecordFacts {
    match resident_value(a) {
        Ok(Some(v)) => if v.len() >= 4 {
            RecordFacts { reparse_tag: le_at(v, 0, 4) as u32, ..f }
        } else {
            f
        },
        _ => f,
    }
}

/// One attribute's effect.
pub open spec fn attr_step(a: Seq<u8>, f: RecordFacts, arena: Seq<char>) -> (Result<RecordFacts, ParseError>, Seq<char>) {
    let t = le_at(a, 0, 4);
    if t == ATTR_STANDARD_INFORMATION {
        (std_info_step(a, f), arena)
    } else if t == ATTR_FILE_NAME {
        name_step(a, f, arena)
    } else if t == ATTR_DATA {
        (data_step(a, f), arena)
    } else if t == ATTR_REPARSE_POINT {
        (Ok(reparse_step(a, f)), arena)
    } else {
        (Ok(f), arena)
    }
}

/// The attribute walk from `pos`, up to the end marker.
pub open spec fn walk(r: Seq<u8>, limit: int, pos: int, f: RecordFacts, arena: Seq<char>) -> (Result<RecordFacts, ParseError>, Seq<char>)
    decreases limit - pos,
{
    if pos < 0 || pos + 4 > limit || limit > r.len() {
        (Err(ParseError("attribute walk past record end")), arena)
    } else if le_at(r, pos, 4) == ATTR_END {
        (Ok(f), arena)
    } else if pos + 8 > limit {
        (Err(ParseError("attribute header truncated")), arena)
    } else {
        let alen = le_at(r, pos + 4, 4);
        if alen < 24 || alen % 8 != 0 || pos + alen > limit {
            (Err(ParseError("attribute length out of bounds")), arena)
        } else {
            match attr_step(r.subrange(pos, pos + alen), f, arena) {
                (Err(e), ar) => (Err(e), ar),
                (Ok(f2), ar) => walk(r, limit, pos + alen, f2, ar),
            }
        }
    }
}

/// Restores the protected last word of sectors `i..count` from the update
/// sequence array at `usa`, checking each against the sequence number.
pub open spec fn fix_from(r: Seq<u8>, cur: Seq<u8>, usa: int, stride: int, count: int, i: int) -> (Result<(), ParseError>, Seq<u8>)
    decreases count - i,
{
    if i < 1 || i >= count {
        (Ok(()), cur)
    } else {
        let end = i * stride - 2;
        if le_at(r, end, 2) != le_at(r, usa, 2) {
            (Err(ParseError("torn record (fixup mismatch)")), cur)
        } else {
            fix_from(r, cur.update(end, r[usa + 2 * i]).update(end + 1, r[usa + 2 * i + 1]), usa, stride, count, i + 1)
        }
    }
}

/// The update-sequence layout: its array offset, entry count and stride.
pub open spec fn fixup_layout(r: Seq<u8>) -> Result<(int, int, int), ParseError> {
    let usa = le_at(r, 4, 2) as int;
    let count = le_at(r, 6, 2) as int;
    if count < 2 {
        Err(ParseError("fixup array too small"))
    } else if (r.len() as int) % (count - 1) != 0 {
        Err(ParseError("fixup count does not divide record size"))
    } else {
        let stride = (r.len() as int) / (count - 1);
        if stride < 512 || stride % 512 != 0 || usa + 2 * count > stride - 2 {
            Err(ParseError("implausible fixup layout"))
        } else {
            Ok((usa, count, stride))
        }
    }
}

/// The record after undoing the update-sequence protection (as far as it
/// got), and whether every sector matched.
pub open spec fn fixups(r: Seq<u8>) -> (Result<(), ParseError>, Seq<u8>) {
    match fixup_layout(r) {
        Err(e) => (Err(e), r),
        Ok((usa, count, stride)) => fix_from(r, r, usa, stride, count, 1),
    }
}

/// A record's facts before the walk: header fields of the fixed-up bytes
/// `f`, the directory bit of the header flags `hf`.
pub open spec fn initial_facts(f: Seq<u8>, hf: u16) -> RecordFacts {
    RecordFacts {
        base: (le_at(f, 0x20, 8) % 0x1_0000_0000_0000) as u64,
        seq: le_at(f, 0x10, 2) as u16,
        is_dir: hf & 2 != 0,
        mtime: 0,
        logical: 0,
        has_logical: false,
        alloc: 0,
        reparse_tag: 0,
        link_names: 0,
        name: None,
        flags: EntryFlags(0),
    }
}

/// What parsing a FILE record gives: the facts (`None` for a free or
/// foreign buffer), the buffer after fixups, and the grown name arena.
pub open spec fn record_parse(r: Seq<u8>, arena: Seq<char>) -> (Result<Option<RecordFacts>, ParseError>, Seq<u8>, Seq<char>) {
    if r.subrange(0, 4) != file_magic() || (le_at(r, 0x16, 2) as u16) & 1 == 0 {
        (Ok(None), r, arena)
    } else {
        match fixups(r) {
            (Err(e), f) => (Err(e), f, arena),
            (Ok(()), f) => {
                let first = le_at(f, 0x14, 2) as int;
                let used = le_at(f, 0x18, 4) as int;
                let limit = if used < f.len() { used } else { f.len() as int };
                if first < 0x30 || first + 4 > limit {
                    (Err(ParseError("attribute offset out of bounds")), f, arena)
                } else {
                    match walk(f, limit, first, initial_facts(f, le_at(r, 0x16, 2) as u16), arena) {
                        (Ok(facts), ar) => (Ok(Some(facts)), f, ar),
                        (Err(e), ar) => (Err(e), f, ar),
                    }
                }
            },
        }
    }
}

/// Clusters covered by `es`.
pub open spec fn clusters_total(es: Seq<Extent>) -> int
    decreases es.len(),
{
    if es.len() == 0 {
        0
    } else {
        clusters_total(es.drop_last()) + es.last().clusters
    }
}

/// The walk of record 0 for the $MFT's own unnamed non-resident $DATA:
/// its real size and its extents.
pub open spec fn walk0(r: Seq<u8>, limit: int, pos: int) -> Result<(u64, Seq<Extent>), ParseError>
    decreases limit - pos,
{
    if pos < 0 || pos + 4 > limit || limit > r.len() {
        Err(ParseError("record 0 walk past record end"))
    } else if le_at(r, pos, 4) == ATTR_END {
        Err(ParseError("record 0 has no non-resident $DATA"))
    } else if pos + 8 > limit {
        Err(ParseError("record 0 attribute truncated"))
    } else {
        let alen = le_at(r, pos + 4, 4);
        if alen < 24 || alen % 8 != 0 || pos + alen > limit {
            Err(ParseError("record 0 attribute length out of bounds"))
        } else {
            let a = r.subrange(pos, pos + alen);
            if le_at(a, 0, 4) != ATTR_DATA || a[8] == 0 || a[9] != 0 {
                walk0(r, limit, pos + alen)
            } else if a.len() < 64 || le_at(a, 16, 8) != 0 {
                Err(ParseError("record 0 $DATA shape unexpected"))
            } else {
                let run_off = le_at(a, 32, 2) as int;
                if run_off < 64 || run_off >= a.len() {
                    Err(ParseError("record 0 run list out of bounds"))
                } else {
                    match run_list(a.subrange(run_off, a.len() as int), 0, 0) {
                        Err(e) => Err(e),
                        Ok(es) => if clusters_total(es) != le_at(a, 24, 8) + 1 {
                            Err(ParseError("$MFT runs incomplete in record 0"))
                        } else {
                            Ok((le_at(a, 48, 8) as u64, es))
                        },
                    }
                }
            }
        }
    }
}

/// What parsing FILE record 0 gives, and the buffer after fixups.
pub open spec fn record0_parse(r: Seq<u8>) -> (Result<(u64, Seq<Extent>), ParseError>, Seq<u8>) {
    if r.subrange(0, 4) != file_magic() || (le_at(r, 0x16, 2) as u16) & 1 == 0 {
        (Err(ParseError("record 0 is not a live FILE record")), r)
    } else {
        match fixups(r) {
            (Err(e), f) => (Err(e), f),
            (Ok(()), f) => {
                let first = le_at(f, 0x14, 2) as int;
                let used = le_at(f, 0x18, 4) as int;
                let limit = if used < f.len() { used } else { f.len() as int };
                if first < 0x30 || first + 4 > limit {
                    (Err(ParseError("record 0 attribute offset out of bounds")), f)
                } else {
                    (walk0(f, limit, first), f)
                }
            },
        }
    }
}

// ----- the code -----

/// FILETIME (100 ns ticks since 1601) to Unix seconds; 0 stays 0.
/// Division truncates toward zero.
pub fn filetime_to_unix(ft: u64) -> (r: i64)
    ensures
        r == unix_time(ft),
{
    let delta: u64 = 116_444_736_000_000_000;
    if ft == 0 {
        return 0;
    }
    if ft >= delta {
        ((ft - delta) / 10_000_000) as i64
    } else {
        -(((delta - ft) / 10_000_000) as i64)
    }
}

/// Maps a reparse tag to entry flags: name surrogates (junctions, symlinks)
/// are marked and never descended; WOF-backed files are compressed; cloud
/// placeholders are flagged so dehydrated sizes read right.
pub fn reparse_entry_flags(tag: u32) -> (r: EntryFlags)
    ensures
        r.0 == (if tag & 0x2000_0000 != 0 { 2u16 } else { 0u16 }) | (if tag == 0x8000_0017 { 8u16 } else { 0u16 }) | (if tag
            & 0xFFFF_0FFF == 0x9000_001A { 32u16 } else { 0u16 }),
{
    let mut f = EntryFlags(0);
    let a: u16 = if tag & 0x2000_0000 != 0 { 2 } else { 0 };
    let b: u16 = if tag == 0x8000_0017 { 8 } else { 0 };
    let c: u16 = if tag & 0xFFFF_0FFF == 0x9000_001A { 32 } else { 0 };
    if a != 0 {
        f.insert(EntryFlags::reparse());
    }
    if b != 0 {
        f.insert(EntryFlags::compressed());
    }
    if c != 0 {
        f.insert(EntryFlags::placeholder());
    }
    proof {
        assert((0u16 | a) | b == a | b) by (bit_vector);
        assert(0u16 | a == a) by (bit_vector);
        assert(a | 0u16 == a) by (bit_vector);
        assert((a | b) | 0u16 == a | b) by (bit_vector);
        assert(0u16 | 0u16 == 0u16) by (bit_vector);
    }
    f
}

/// The value slice of a resident attribute; `None` if non-resident.
fn resident_value_of(attr: &[u8]) -> (r: Result<Option<&[u8]>, ParseError>)
    requires
        attr@.len() >= 24,
    ensures
        match resident_value(attr@) {
            Err(e) => r == Err::<Option<&[u8]>, ParseError>(e),
            Ok(None) => r matches Ok(None),
            Ok(Some(v)) => r matches Ok(Some(s)) && s@ == v,
        },
{
    if attr[8] != 0 {
        return Ok(None);
    }
    let vlen = u32_at(attr, 16) as usize;
    let voff = u16_at(attr, 20) as usize;
    if voff < 24 || voff > attr.len() || vlen > attr.len() - voff {
        return Err(ParseError("resident value out of bounds"));
    }
    Ok(Some(slice_range(attr, voff, voff + vlen)))
}

/// `b[from..to]`.
fn slice_range(b: &[u8], from: usize, to: usize) -> (r: &[u8])
    requires
        from <= to <= b@.len(),
    ensures
        r@ == b@.subrange(from as int, to as int),
{
    &b[from..to]
}

fn std_info(attr: &[u8], facts: &mut RecordFacts) -> (r: Result<(), ParseError>)
    requires
        attr@.len() >= 24,
    ensures
        match std_info_step(attr@, *old(facts)) {
            Ok(f) => r is Ok && *final(facts) == f,
            Err(e) => r == Err::<(), ParseError>(e),
        },
{
    let v = match resident_value_of(attr) {
        Err(e) => {
            return Err(e);
        },
        Ok(None) => {
            return Ok(());
        },
        Ok(Some(v)) => v,
    };
    if v.len() < 0x24 {
        return Err(ParseError("standard-information value truncated"));
    }
    facts.mtime = filetime_to_unix(u64_at(v, 0x08));
    if u32_at(v, 0x20) & 4 != 0 {
        facts.flags.insert(EntryFlags::system());
    }
    Ok(())
}

/// Namespace rank: Win32 (and Win32&DOS) beat POSIX beat DOS 8.3.
fn name_rank(namespace: u8) -> (r: u8)
    ensures
        r == spec_name_rank(namespace),
{
    if namespace == 1 || namespace == 3 {
        0
    } else if namespace == 0 {
        1
    } else if namespace == NS_DOS {
        2
    } else {
        3
    }
}

/// Appends the UTF-16 text of the `chars` units at `v[off..]`.
fn push_utf16(arena: &mut String, v: &[u8], off: usize, chars: usize)
    requires
        off + 2 * chars <= v@.len(),
    ensures
        final(arena)@ == old(arena)@ + decode_utf16(units_at(v@, off as int, chars as int), 0),
{
    let ghost units = units_at(v@, off as int, chars as int);
    let total = v.len();
    let mut j: usize = 0;
    while j < chars
        invariant
            total == v@.len(),
            off + 2 * chars <= v@.len(),
            units == units_at(v@, off as int, chars as int),
            j <= chars,
            arena@ + decode_utf16(units, j as int) == old(arena)@ + decode_utf16(units, 0),
        decreases chars - j,
    {
        let u = u16_at(v, off + 2 * j);
        proof {
            assert(units[j as int] == u);
        }
        let ghost rest = decode_utf16(units, j as int);
        let ghost prev = arena@;
        let pair = if 0xD800 <= u && u <= 0xDBFF && j + 1 < chars {
            let w = u16_at(v, off + 2 * j + 2);
            0xDC00 <= w && w <= 0xDFFF
        } else {
            false
        };
        let c: char;
        let step: usize;
        if u < 0xD800 || u > 0xDFFF {
            proof {
                assert(is_scalar(u as u32));
            }
            c = char_from_u32(u as u32).unwrap();
            step = 1;
        } else if pair {
            let w = u16_at(v, off + 2 * j + 2);
            proof {
                assert(units[j + 1] == w);
            }
            let x: u32 = 0x10000 + (u as u32 - 0xD800) * 0x400 + (w as u32 - 0xDC00);
            proof {
                assert(is_scalar(x));
            }
            c = char_from_u32(x).unwrap();
            step = 2;
        } else {
            proof {
                if 0xD800 <= u <= 0xDBFF && j + 1 < chars {
                    assert(units[j + 1] == le_at(v@, off + 2 * (j + 1), 2) as u16);
                }
            }
            c = '\u{FFFD}';
            step = 1;
        }
        push_char(arena, c);
        j = j + step;
        proof {
            assert(rest == seq![c] + decode_utf16(units, j as int));
            assert(arena@ == prev.push(c));
            assert(arena@ + decode_utf16(units, j as int) =~= prev + rest);
        }
    }
    proof {
        assert(decode_utf16(units, j as int) =~= Seq::<char>::empty());
        assert(arena@ + Seq::<char>::empty() =~= arena@);
    }
}

fn file_name(attr: &[u8], arena: &mut String, facts: &mut RecordFacts) -> (r: Result<(), ParseError>)
    requires
        attr@.len() >= 24,
        old(facts).link_names < u32::MAX,
    ensures
        ({
            let (res, ar) = name_step(attr@, *old(facts), old(arena)@);
            &&& final(arena)@ == ar
            &&& match res {
                Ok(f) => r is Ok && *final(facts) == f,
                Err(e) => r == Err::<(), ParseError>(e),
            }
        }),
{
    let v = match resident_value_of(attr) {
        Err(e) => {
            return Err(e);
        },
        Ok(None) => {
            return Ok(());
        },
        Ok(Some(v)) => v,
    };
    if v.len() < 0x42 {
        return Err(ParseError("file-name value truncated"));
    }
    let chars = v[0x40] as usize;
    let namespace = v[0x41];
    if 0x42 + 2 * chars > v.len() {
        return Err(ParseError("file-name string out of bounds"));
    }
    if namespace != NS_DOS {
        facts.link_names = facts.link_names + 1;
    }
    let rank = name_rank(namespace);
    let better = match facts.name {
        None => true,
        Some(n) => rank < n.rank,
    };
    if better {
        let old_len = byte_len(arena.as_str());
        let ghost before = arena@;
        let off = #[verifier::truncate] (old_len as u32);
        proof {
            assert(off as usize <= old_len) by (bit_vector)
                requires
                    off == old_len as u32,
            ;
        }
        push_utf16(arena, v, 0x42, chars);
        let new_len = byte_len(arena.as_str());
        proof {
            crate::text::lemma_encode_concat(before, decode_utf16(units_at(v@, 0x42, chars as int), 0));
        }
        let len = #[verifier::truncate] ((new_len - off as usize) as u16);
        facts.name = Some(NameFact { parent: RecordRef(u64_at(v, 0)), rank, off, len });
    }
    Ok(())
}

fn data(attr: &[u8], facts: &mut RecordFacts) -> (r: Result<(), ParseError>)
    requires
        attr@.len() >= 24,
    ensures
        match data_step(attr@, *old(facts)) {
            Ok(f) => r is Ok && *final(facts) == f,
            Err(e) => r == Err::<(), ParseError>(e),
        },
{
    let named = attr[9] != 0;
    if attr[8] == 0 {
        let v = match resident_value_of(attr) {
            Err(e) => {
                return Err(e);
            },
            Ok(None) => {
                return Ok(());
            },
            Ok(Some(v)) => v,
        };
        if !named && !facts.has_logical {
            facts.logical = v.len() as u64;
            facts.has_logical = true;
        }
        return Ok(());
    }
    if attr.len() < 64 {
        return Err(ParseError("non-resident header truncated"));
    }
    if u64_at(attr, 16) != 0 {
        return Ok(());
    }
    let compression_unit = u16_at(attr, 34);
    let alloc = if compression_unit != 0 {
        if attr.len() < 72 {
            return Err(ParseError("compressed data header truncated"));
        }
        u64_at(attr, 64)
    } else {
        u64_at(attr, 40)
    };
    facts.alloc = facts.alloc.saturating_add(alloc);
    if !named && !facts.has_logical {
        facts.logical = u64_at(attr, 48);
        facts.has_logical = true;
        let attr_flags = u16_at(attr, 12);
        let c: u16 = if attr_flags & 0x00FF != 0 { 8 } else { 0 };
        let s: u16 = if attr_flags & 0x8000 != 0 { 16 } else { 0 };
        facts.flags = EntryFlags(facts.flags.0 | c | s);
    }
    Ok(())
}

fn reparse_point(attr: &[u8], facts: &mut RecordFacts)
    requires
        attr@.len() >= 24,
    ensures
        *final(facts) == reparse_step(attr@, *old(facts)),
{
    if let Ok(Some(v)) = resident_value_of(attr) {
        if v.len() >= 4 {
            facts.reparse_tag = u32_at(v, 0);
        }
    }
}

proof fn lemma_fix_from_len(r: Seq<u8>, cur: Seq<u8>, usa: int, stride: int, count: int, i: int)
    requires
        cur.len() == r.len(),
        stride >= 512,
        count >= 2,
        (count - 1) * stride == r.len(),
        i >= 1,
    ensures
        fix_from(r, cur, usa, stride, count, i).1.len() == r.len(),
    decreases count - i,
{
    if 1 <= i < count {
        let end = i * stride - 2;
        lemma_mul_le(i, count - 1, stride);
        lemma_mul_le(1, i, stride);
        if le_at(r, end, 2) == le_at(r, usa, 2) {
            lemma_fix_from_len(r, cur.update(end, r[usa + 2 * i]).update(end + 1, r[usa + 2 * i + 1]), usa, stride, count, i + 1);
        }
    }
}

/// Fixups keep the length, and succeed only on records of 512 bytes or more.
/// Parsing never changes a record's length.
pub proof fn lemma_record_parse_len(r: Seq<u8>, arena: Seq<char>)
    ensures
        record_parse(r, arena).1.len() == r.len(),
{
    lemma_fixups_len(r);
}

proof fn lemma_fixups_len(r: Seq<u8>)
    ensures
        fixups(r).1.len() == r.len(),
        fixups(r).0 is Ok ==> r.len() >= 512,
{
    match fixup_layout(r) {
        Err(e) => {},
        Ok((usa, count, stride)) => {
            assert((count - 1) * stride == r.len()) by (nonlinear_arith)
                requires
                    stride == (r.len() as int) / (count - 1),
                    (r.len() as int) % (count - 1) == 0,
                    count >= 2,
            ;
            lemma_fix_from_len(r, r, usa, stride, count, 1);
            lemma_mul_le(1, count - 1, stride);
        },
    }
}

/// The effect of one attribute, dispatched on its type.
fn apply_attr(attr: &[u8], arena: &mut String, facts: &mut RecordFacts) -> (r: Result<(), ParseError>)
    requires
        attr@.len() >= 24,
        old(facts).link_names < u32::MAX,
    ensures
        ({
            let (res, ar) = attr_step(attr@, *old(facts), old(arena)@);
            &&& final(arena)@ == ar
            &&& match res {
                Ok(f) => r is Ok && *final(facts) == f,
                Err(e) => r == Err::<(), ParseError>(e),
            }
        }),
{
    let t = u32_at(attr, 0);
    if t == ATTR_STANDARD_INFORMATION {
        std_info(attr, facts)
    } else if t == ATTR_FILE_NAME {
        file_name(attr, arena, facts)
    } else if t == ATTR_DATA {
        data(attr, facts)
    } else if t == ATTR_REPARSE_POINT {
        reparse_point(attr, facts);
        Ok(())
    } else {
        Ok(())
    }
}

/// A walk's outcome as a record parse's.
pub open spec fn as_record(w: (Result<RecordFacts, ParseError>, Seq<char>), f: Seq<u8>) -> (Result<Option<RecordFacts>, ParseError>, Seq<u8>, Seq<char>) {
    match w {
        (Ok(x), ar) => (Ok(Some(x)), f, ar),
        (Err(e), ar) => (Err(e), f, ar),
    }
}

/// Whether the first four bytes are the FILE magic.
fn has_file_magic(rec: &[u8]) -> (r: bool)
    requires
        rec@.len() >= 4,
    ensures
        r == (rec@.subrange(0, 4) == file_magic()),
{
    let r = rec[0] == 0x46 && rec[1] == 0x49 && rec[2] == 0x4C && rec[3] == 0x45;
    proof {
        if r {
            assert(rec@.subrange(0, 4) =~= file_magic());
        } else if rec@.subrange(0, 4) == file_magic() {
            assert(rec@.subrange(0, 4)[0] == rec@[0]);
            assert(rec@.subrange(0, 4)[1] == rec@[1]);
            assert(rec@.subrange(0, 4)[2] == rec@[2]);
            assert(rec@.subrange(0, 4)[3] == rec@[3]);
        }
    }
    r
}

/// Parses one FILE record in place (fixups are applied to the buffer).
///
/// `Ok(None)`: not a record or not in use (free or never-initialized
/// space), skipped silently. `Err`: a torn or corrupt record.
pub fn parse_record(rec: &mut [u8], arena: &mut String) -> (r: Result<Option<RecordFacts>, ParseError>)
    requires
        old(rec)@.len() >= 512,
    ensures
        ({
            let (res, fixed, grown) = record_parse(old(rec)@, old(arena)@);
            &&& r == res
            &&& final(rec)@ == fixed
            &&& final(arena)@ == grown
        }),
{
    let ghost r0 = rec@;
    if !has_file_magic(rec) {
        return Ok(None);
    }
    let header_flags = u16_at(rec, 0x16);
    if header_flags & 0x1 == 0 {
        return Ok(None);
    }
    proof {
        lemma_fixups_len(r0);
    }
    match apply_fixups(rec) {
        Err(e) => {
            return Err(e);
        },
        Ok(()) => {},
    }
    let ghost f = rec@;
    let seq = u16_at(rec, 0x10);
    let first_attr = u16_at(rec, 0x14) as usize;
    let used = u32_at(rec, 0x18) as usize;
    let base_ref = RecordRef(u64_at(rec, 0x20));
    let limit = if used < rec.len() { used } else { rec.len() };
    if first_attr < 0x30 || first_attr + 4 > limit {
        return Err(ParseError("attribute offset out of bounds"));
    }
    let mut facts = RecordFacts {
        base: base_ref.number(),
        seq,
        is_dir: header_flags & 0x2 != 0,
        mtime: 0,
        logical: 0,
        has_logical: false,
        alloc: 0,
        reparse_tag: 0,
        link_names: 0,
        name: None,
        flags: EntryFlags(0),
    };
    let mut pos = first_attr;
    let ghost f0 = facts;
    let ghost a0 = arena@;
    proof {
        assert(facts == initial_facts(f, le_at(r0, 0x16, 2) as u16));
        assert(record_parse(r0, old(arena)@) == as_record(walk(f, limit as int, first_attr as int, f0, a0), f));
    }
    loop
        invariant
            rec@ == f,
            limit <= f.len(),
            limit <= u32::MAX,
            first_attr <= pos <= limit,
            facts.link_names * 24 <= pos,
            r0 == old(rec)@,
            a0 == old(arena)@,
            record_parse(r0, a0) == as_record(walk(f, limit as int, first_attr as int, f0, a0), f),
            walk(f, limit as int, first_attr as int, f0, a0) == walk(f, limit as int, pos as int, facts, arena@),
        decreases limit - pos,
    {
        if 4 > limit - pos {
            return Err(ParseError("attribute walk past record end"));
        }
        if u32_at(rec, pos) == ATTR_END {
            return Ok(Some(facts));
        }
        if 8 > limit - pos {
            return Err(ParseError("attribute header truncated"));
        }
        let alen = u32_at(rec, pos + 4) as usize;
        if alen < 24 || alen % 8 != 0 || alen > limit - pos {
            return Err(ParseError("attribute length out of bounds"));
        }
        let attr = slice_range(rec, pos, pos + alen);
        match apply_attr(attr, arena, &mut facts) {
            Err(e) => {
                return Err(e);
            },
            Ok(()) => {},
        }
        pos = pos + alen;
    }
}

/// The $MFT's self-description, from FILE record 0: how many bytes of
/// records exist and where they live on disk.
#[derive(Clone, Debug, PartialEq, Eq)]
pub struct MftSelf {
    /// $DATA real size: the read limit (records beyond it don't exist).
    pub data_size: u64,
    pub extents: Vec<Extent>,
}

/// Parses FILE record 0 for the $MFT's own unnamed $DATA runs. Errors if
/// the runs in record 0 don't cover the whole attribute (a heavily
/// fragmented $MFT spills runs into extension records).
pub fn parse_record0(rec: &mut [u8]) -> (r: Result<MftSelf, ParseError>)
    requires
        old(rec)@.len() >= 0x18,
    ensures
        ({
            let (res, fixed) = record0_parse(old(rec)@);
            &&& final(rec)@ == fixed
            &&& match res {
                Ok((size, es)) => r matches Ok(m) && m.data_size == size && m.extents@ == es,
                Err(e) => r == Err::<MftSelf, ParseError>(e),
            }
        }),
{
    let ghost r0 = rec@;
    if !has_file_magic(rec) || u16_at(rec, 0x16) & 0x1 == 0 {
        return Err(ParseError("record 0 is not a live FILE record"));
    }
    proof {
        lemma_fixups_len(r0);
    }
    match apply_fixups(rec) {
        Err(e) => {
            return Err(e);
        },
        Ok(()) => {},
    }
    let ghost f = rec@;
    let first_attr = u16_at(rec, 0x14) as usize;
    let used = u32_at(rec, 0x18) as usize;
    let limit = if used < rec.len() { used } else { rec.len() };
    if first_attr < 0x30 || first_attr + 4 > limit {
        return Err(ParseError("record 0 attribute offset out of bounds"));
    }
    let mut pos = first_attr;
    proof {
        assert(record0_parse(r0) == (walk0(f, limit as int, first_attr as int), f));
    }
    loop
        invariant
            rec@ == f,
            limit <= f.len(),
            limit <= u32::MAX,
            first_attr <= pos <= limit,
            r0 == old(rec)@,
            record0_parse(r0) == (walk0(f, limit as int, first_attr as int), f),
            walk0(f, limit as int, first_attr as int) == walk0(f, limit as int, pos as int),
        decreases limit - pos,
    {
        if 4 > limit - pos {
            return Err(ParseError("record 0 walk past record end"));
        }
        if u32_at(rec, pos) == ATTR_END {
            return Err(ParseError("record 0 has no non-resident $DATA"));
        }
        if 8 > limit - pos {
            return Err(ParseError("record 0 attribute truncated"));
        }
        let alen = u32_at(rec, pos + 4) as usize;
        if alen < 24 || alen % 8 != 0 || alen > limit - pos {
            return Err(ParseError("record 0 attribute length out of bounds"));
        }
        let attr = slice_range(rec, pos, pos + alen);
        pos = pos + alen;
        if u32_at(attr, 0) != ATTR_DATA || attr[8] == 0 || attr[9] != 0 {
            continue;
        }
        if attr.len() < 64 || u64_at(attr, 16) != 0 {
            return Err(ParseError("record 0 $DATA shape unexpected"));
        }
        let highest_vcn = u64_at(attr, 24);
        let data_size = u64_at(attr, 48);
        let run_off = u16_at(attr, 32) as usize;
        if run_off < 64 || run_off >= attr.len() {
            return Err(ParseError("record 0 run list out of bounds"));
        }
        let extents = match decode_runs(slice_range(attr, run_off, attr.len())) {
            Err(e) => {
                return Err(e);
            },
            Ok(v) => v,
        };
        let covered = sum_clusters(&extents);
        if covered != highest_vcn as u128 + 1 {
            return Err(ParseError("$MFT runs incomplete in record 0"));
        }
        return Ok(MftSelf { data_size, extents });
    }
}

/// The clusters covered by `es`.
fn sum_clusters(es: &Vec<Extent>) -> (r: u128)
    ensures
        r == clusters_total(es@),
{
    let mut total: u128 = 0;
    let mut i: usize = 0;
    while i < es.len()
        invariant
            i <= es@.len(),
            total == clusters_total(es@.subrange(0, i as int)),
            total <= i * 0xFFFF_FFFF_FFFF_FFFF,
        decreases es@.len() - i,
    {
        proof {
            assert(es@.subrange(0, i + 1).drop_last() =~= es@.subrange(0, i as int));
            assert(i * 0xFFFF_FFFF_FFFF_FFFF <= 0xFFFF_FFFF_FFFF_FFFF * 0xFFFF_FFFF_FFFF_FFFF) by (nonlinear_arith)
                requires
                    i <= 0xFFFF_FFFF_FFFF_FFFF,
            ;
        }
        total = total + es[i].clusters as u128;
        i = i + 1;
    }
    proof {
        assert(es@.subrange(0, i as int) =~= es@);
    }
    total
}

/// Byte `k` is one of the protected words of sectors `1..i`.
spec fn fixed_word(k: int, stride: int, i: int) -> bool {
    exists|s: int| 1 <= s < i && (k == #[trigger] sector_end(s, stride) - 2 || k == sector_end(s, stride) - 1)
}

/// The end of sector `s`.
spec fn sector_end(s: int, stride: int) -> int {
    s * stride
}

proof fn lemma_mul_le(a: int, b: int, c: int)
    requires
        a <= b,
        c >= 0,
    ensures
        a * c <= b * c,
{
    assert(a * c <= b * c) by (nonlinear_arith)
        requires
            a <= b,
            c >= 0,
    ;
}

/// The protected word of sector `i` is not among those of earlier sectors.
proof fn lemma_not_fixed(k: int, stride: int, i: int)
    requires
        stride >= 512,
        i >= 1,
        k == i * stride - 2 || k == i * stride - 1,
    ensures
        !fixed_word(k, stride, i),
{
    if fixed_word(k, stride, i) {
        let s = choose|s: int| 1 <= s < i && (k == #[trigger] sector_end(s, stride) - 2 || k == sector_end(s, stride) - 1);
        lemma_mul_le(s, i - 1, stride);
        assert((i - 1) * stride == i * stride - stride) by (nonlinear_arith);
    }
}

/// The update sequence array lies before every protected word.
proof fn lemma_usa_not_fixed(k: int, stride: int, i: int)
    requires
        stride >= 512,
        0 <= k < stride - 2,
    ensures
        !fixed_word(k, stride, i),
{
    if fixed_word(k, stride, i) {
        let s = choose|s: int| 1 <= s < i && (k == #[trigger] sector_end(s, stride) - 2 || k == sector_end(s, stride) - 1);
        lemma_mul_le(1, s, stride);
    }
}

/// Verifies and undoes the update-sequence protection: the last word of
/// every sector must equal the sequence number, and gets its saved value
/// back. A mismatch means the record was torn mid-write.
fn apply_fixups(rec: &mut [u8]) -> (r: Result<(), ParseError>)
    requires
        old(rec)@.len() >= 8,
    ensures
        ({
            let (res, fixed) = fixups(old(rec)@);
            r == res && final(rec)@ == fixed
        }),
{
    let ghost r0 = rec@;
    let usa_off = u16_at(rec, 4) as usize;
    let count = u16_at(rec, 6) as usize;
    if count < 2 {
        return Err(ParseError("fixup array too small"));
    }
    let sectors = count - 1;
    if rec.len() % sectors != 0 {
        return Err(ParseError("fixup count does not divide record size"));
    }
    let stride = rec.len() / sectors;
    if stride < 512 || stride % 512 != 0 || usa_off + 2 * count > stride - 2 {
        return Err(ParseError("implausible fixup layout"));
    }
    proof {
        assert(rec@.len() == sectors * stride) by (nonlinear_arith)
            requires
                (rec@.len() as int) % (sectors as int) == 0,
                stride == (rec@.len() as int) / (sectors as int),
                sectors > 0,
        ;
    }
    let usn = u16_at(rec, usa_off);
    let total = rec.len();
    let mut i: usize = 1;
    while i < count
        invariant
            total == rec@.len(),
            r0 == old(rec)@,
            r0.len() == rec@.len(),
            rec@.len() == sectors * stride,
            sectors == count - 1,
            2 <= count,
            stride >= 512,
            usa_off + 2 * count <= stride - 2,
            usn == le_at(r0, usa_off as int, 2),
            1 <= i <= count,
            fixups(r0) == fix_from(r0, rec@, usa_off as int, stride as int, count as int, i as int),
            forall|k: int| 0 <= k < r0.len() && !fixed_word(k, stride as int, i as int) ==> rec@[k] == r0[k],
        decreases count - i,
    {
        proof {
            lemma_mul_le(i as int, sectors as int, stride as int);
            lemma_mul_le(1, i as int, stride as int);
        }
        let end = i * stride - 2;
        proof {
            lemma_not_fixed(end as int, stride as int, i as int);
            lemma_not_fixed(end + 1, stride as int, i as int);
            lemma_usa_not_fixed(usa_off + 2 * i, stride as int, i as int);
            lemma_usa_not_fixed(usa_off + 2 * i + 1, stride as int, i as int);
            assert(rec@.subrange(end as int, end + 2) =~= r0.subrange(end as int, end + 2));
        }
        let word = u16_at(rec, end);
        if word != usn {
            proof {
                assert(le_at(rec@, end as int, 2) == le_at(r0, end as int, 2));
                assert(end as int == (i as int) * (stride as int) - 2);
                assert(le_at(r0, (i as int) * (stride as int) - 2, 2) != le_at(r0, usa_off as int, 2));
            }
            return Err(ParseError("torn record (fixup mismatch)"));
        }
        let lo = rec[usa_off + 2 * i];
        let hi = rec[usa_off + 2 * i + 1];
        let ghost cur = rec@;
        rec[end] = lo;
        rec[end + 1] = hi;
        proof {
            assert(rec@ == cur.update(end as int, r0[usa_off + 2 * i]).update(end + 1, r0[usa_off + 2 * i + 1]));
            assert forall|k: int| 0 <= k < r0.len() && !fixed_word(k, stride as int, i + 1) implies rec@[k] == r0[k] by {
                if k != end && k != end + 1 {
                    assert(!fixed_word(k, stride as int, i as int)) by {
                        if fixed_word(k, stride as int, i as int) {
                            let s = choose|s: int| 1 <= s < i && (k == #[trigger] sector_end(s, stride as int) - 2 || k == sector_end(s, stride as int) - 1);
                            assert(1 <= s < i + 1);
                        }
                    }
                } else {
                    assert(1 <= i < i + 1 && (k == sector_end(i as int, stride as int) - 2 || k == sector_end(i as int, stride as int) - 1));
                }
            }
        }
        i = i + 1;
    }
    Ok(())
}


/// The 64-bit little-endian value of the eight bytes of `v` from `off`.
pub open spec fn u64_le_bytes(v: Seq<u8>, off: int) -> int {
    v[off] + 256 * (v[off + 1] + 256 * (v[off + 2] + 256 * (v[off + 3] + 256 * (v[off + 4] + 256 * (v[off + 5]
        + 256 * (v[off + 6] + 256 * v[off + 7]))))))
}

/// A record's modification time is its last-modification time: for a
/// resident $STANDARD_INFORMATION value `v`, the parsed `mtime` is the
/// FILETIME held in `v[8..16]` (100 ns ticks since 1601) in whole Unix
/// seconds, rounded toward zero, with 0 kept as "unknown". The creation
/// time in `v[0..8]` and the access time in `v[0x18..0x20]` play no part.
/// The record is SYSTEM exactly when the FILE_ATTRIBUTE_SYSTEM bit (value
/// 4) of the attribute word at `v[0x20..0x24]` is set (a SYSTEM mark found
/// earlier stays); nothing else about the record changes.
pub proof fn lemma_mtime_is_last_modification(a: Seq<u8>, f: RecordFacts, v: Seq<u8>)
    requires
        resident_value(a) == Ok::<Option<Seq<u8>>, ParseError>(Some(v)),
        v.len() >= 0x24,
    ensures
        std_info_step(a, f) matches Ok(g) && g == (RecordFacts { mtime: g.mtime, flags: g.flags, ..f }) && g.flags == (
        if v[0x20] & 4 != 0 {
            EntryFlags(f.flags.0 | 128)
        } else {
            f.flags
        }) && {
            let ft = u64_le_bytes(v, 8);
            let epoch = 116_444_736_000_000_000int;
            g.mtime as int == if ft == 0 {
                0
            } else if ft >= epoch {
                (ft - epoch) / 10_000_000
            } else {
                -((epoch - ft) / 10_000_000)
            }
        },
{
    reveal_with_fuel(crate::ntfs::le_value, 9);
    let w = v.subrange(8, 16);
    assert(w.drop_first() =~= v.subrange(9, 16));
    assert(w.drop_first().drop_first() =~= v.subrange(10, 16));
    assert(v.subrange(10, 16).drop_first() =~= v.subrange(11, 16));
    assert(v.subrange(11, 16).drop_first() =~= v.subrange(12, 16));
    assert(v.subrange(12, 16).drop_first() =~= v.subrange(13, 16));
    assert(v.subrange(13, 16).drop_first() =~= v.subrange(14, 16));
    assert(v.subrange(14, 16).drop_first() =~= v.subrange(15, 16));
    assert(v.subrange(15, 16).drop_first() =~= v.subrange(16, 16));
    assert(le_at(v, 8, 8) == u64_le_bytes(v, 8));
    assert(le_at(v, 8, 8) < 0x1_0000_0000_0000_0000) by {
        crate::ntfs::lemma_le_value_bound(w);
        crate::ntfs::lemma_pow256_values();
    }
    let ft = le_at(v, 8, 8) as u64;
    let d = ft - 116_444_736_000_000_000int;
    assert(unix_time(ft) <= 0x1_0000_0000_0000_0000int / 10_000_000);
    assert(unix_time(ft) >= -116_444_736_000_000_000int / 10_000_000 - 1);
    let x = v.subrange(0x20, 0x24);
    assert(x.drop_first() =~= v.subrange(0x21, 0x24));
    assert(v.subrange(0x21, 0x24).drop_first() =~= v.subrange(0x22, 0x24));
    assert(v.subrange(0x22, 0x24).drop_first() =~= v.subrange(0x23, 0x24));
    assert(v.subrange(0x23, 0x24).drop_first() =~= v.subrange(0x24, 0x24));
    let b0 = v[0x20];
    let b1 = v[0x21];
    let b2 = v[0x22];
    let b3 = v[0x23];
    assert(le_at(v, 0x20, 4) == b0 + 256 * (b1 + 256 * (b2 + 256 * b3)));
    assert(((b0 as u32 + 256 * (b1 as u32 + 256 * (b2 as u32 + 256 * b3 as u32))) as u32) & 4 == (b0 & 4) as u32) by (bit_vector);
}

} // verus!
