//! Hand-built NTFS byte fixtures for tests and benches.
//!
//! Every builder states the exact bytes it lays down, as writes (`put`)
//! into zero-filled buffers, so a fixture is a specification of the
//! on-disk format in its own right.

use vstd::arithmetic::power2::is_pow2;
use vstd::prelude::*;

use crate::text::chars_of;

verus! {

/// The `n` low bytes of `v`, least significant first.
pub open spec fn le_bytes(v: u64, n: nat) -> Seq<u8> {
    Seq::new(n, |i: int| ((v >> ((8 * i) as u64)) & 0xff) as u8)
}

/// `s` with `piece` written over it at `off`.
pub open spec fn put(s: Seq<u8>, off: int, piece: Seq<u8>) -> Seq<u8> {
    s.subrange(0, off) + piece + s.subrange(off + piece.len(), s.len() as int)
}

pub open spec fn zeros(n: nat) -> Seq<u8> {
    Seq::new(n, |i: int| 0u8)
}

/// `n` rounded up to a multiple of 8.
pub open spec fn align8(n: int) -> int {
    (n + 7) / 8 * 8
}

/// UTF-16 code units, little-endian.
pub open spec fn utf16_le(units: Seq<u16>) -> Seq<u8> {
    Seq::new(2 * units.len(), |j: int| if j % 2 == 0 {
        (units[j / 2] & 0xff) as u8
    } else {
        (units[j / 2] >> 8) as u8
    })
}

/// The UTF-16 encoding of one character.
pub open spec fn unit_of(c: char) -> Seq<u16> {
    let v = c as u32;
    if v < 0x10000 {
        seq![v as u16]
    } else {
        seq![(0xD800 + ((v - 0x10000) as u32 >> 10)) as u16, (0xDC00 + ((v - 0x10000) as u32 & 0x3ff)) as u16]
    }
}

/// The UTF-16 encoding of a text.
pub open spec fn utf16_of(s: Seq<char>) -> Seq<u16>
    decreases s.len(),
{
    if s.len() == 0 {
        Seq::empty()
    } else {
        utf16_of(s.drop_last()) + unit_of(s.last())
    }
}

/// Two adjacent writes are one write of the joined pieces.
proof fn lemma_put_join(s: Seq<u8>, off: int, a: Seq<u8>, b: Seq<u8>)
    requires
        0 <= off,
        off + a.len() + b.len() <= s.len(),
    ensures
        put(put(s, off, a), off + a.len(), b) == put(s, off, a + b),
{
    assert(put(put(s, off, a), off + a.len(), b) =~= put(s, off, a + b));
}

/// A write inside a written piece patches the piece.
proof fn lemma_put_inside(s: Seq<u8>, off: int, a: Seq<u8>, k: int, c: Seq<u8>)
    requires
        0 <= off,
        off + a.len() <= s.len(),
        0 <= k,
        k + c.len() <= a.len(),
    ensures
        put(put(s, off, a), off + k, c) == put(s, off, put(a, k, c)),
{
    assert(put(put(s, off, a), off + k, c) =~= put(s, off, put(a, k, c)));
}

/// A zero-filled buffer of `n` bytes.
fn zero_vec(n: usize) -> (r: Vec<u8>)
    ensures
        r@ == zeros(n as nat),
{
    let mut r: Vec<u8> = Vec::new();
    let mut i: usize = 0;
    while i < n
        invariant
            i <= n,
            r@ == zeros(i as nat),
        decreases n - i,
    {
        r.push(0u8);
        i = i + 1;
        proof {
            assert(r@ =~= zeros(i as nat));
        }
    }
    r
}

/// The `n` low bytes of `v`, least significant first.
fn le_vec(v: u64, n: usize) -> (r: Vec<u8>)
    requires
        n <= 8,
    ensures
        r@ == le_bytes(v, n as nat),
{
    let mut r: Vec<u8> = Vec::new();
    let mut i: usize = 0;
    while i < n
        invariant
            i <= n <= 8,
            r@ == le_bytes(v, i as nat),
        decreases n - i,
    {
        let shift: u64 = 8 * i as u64;
        r.push(((v >> shift) & 0xff) as u8);
        i = i + 1;
        proof {
            assert(r@ =~= le_bytes(v, i as nat));
        }
    }
    r
}

/// Writes `piece` into `buf` at `off`.
fn put_bytes(buf: &mut Vec<u8>, off: usize, piece: &[u8])
    requires
        off + piece@.len() <= old(buf)@.len(),
    ensures
        final(buf)@.len() == old(buf)@.len(),
        final(buf)@ == put(old(buf)@, off as int, piece@),
{
    let ghost want = put(old(buf)@, off as int, piece@);
    let n = buf.len();
    let mut i: usize = 0;
    while i < piece.len()
        invariant
            n == old(buf)@.len(),
            off + piece@.len() <= old(buf)@.len(),
            want == put(old(buf)@, off as int, piece@),
            buf@.len() == old(buf)@.len(),
            i <= piece@.len(),
            forall|j: int| 0 <= j < buf@.len() && !(off <= j < off + i) ==> buf@[j] == old(buf)@[j],
            forall|j: int| off <= j < off + i ==> buf@[j] == piece@[j - off],
        decreases piece@.len() - i,
    {
        buf.set(off + i, piece[i]);
        i = i + 1;
    }
    proof {
        assert(buf@ =~= want);
    }
}

/// Writes the `n` low bytes of `v` into `buf` at `off`.
fn put_le(buf: &mut Vec<u8>, off: usize, v: u64, n: usize)
    requires
        n <= 8,
        off + n <= old(buf)@.len(),
    ensures
        final(buf)@.len() == old(buf)@.len(),
        final(buf)@ == put(old(buf)@, off as int, le_bytes(v, n as nat)),
{
    let b = le_vec(v, n);
    put_bytes(buf, off, b.as_slice());
}

/// Writes one byte into `buf` at `off`.
fn put_byte(buf: &mut Vec<u8>, off: usize, v: u8)
    requires
        off < old(buf)@.len(),
    ensures
        final(buf)@.len() == old(buf)@.len(),
        final(buf)@ == put(old(buf)@, off as int, seq![v]),
{
    buf.set(off, v);
    proof {
        assert(buf@ =~= put(old(buf)@, off as int, seq![v]));
    }
}

/// The UTF-16 code units of `s`.
pub fn utf16_units(s: &str) -> (r: Vec<u16>)
    ensures
        r@ == utf16_of(s@),
{
    let chars = chars_of(s);
    let mut r: Vec<u16> = Vec::new();
    let mut i: usize = 0;
    while i < chars.len()
        invariant
            i <= chars@.len(),
            chars@ == s@,
            r@ == utf16_of(chars@.subrange(0, i as int)),
        decreases chars@.len() - i,
    {
        let c = chars[i];
        let v = c as u32;
        if v < 0x10000 {
            r.push(v as u16);
        } else {
            proof {
                vstd::utf8::char_is_scalar(c);
            }
            let w: u32 = v - 0x10000;
            assert(w <= 0xFFFFF);
            assert(w <= 0xFFFFF ==> (w >> 10u32) <= 0x3ff) by (bit_vector);
            assert((w & 0x3ffu32) <= 0x3ff) by (bit_vector);
            r.push((0xD800 + (w >> 10)) as u16);
            r.push((0xDC00 + (w & 0x3ff)) as u16);
        }
        proof {
            let pre = chars@.subrange(0, i as int);
            let next = chars@.subrange(0, i + 1);
            assert(next.drop_last() =~= pre);
            assert(next.last() == c);
            assert(r@ =~= utf16_of(pre) + unit_of(c));
        }
        i = i + 1;
    }
    proof {
        assert(chars@.subrange(0, i as int) =~= chars@);
    }
    r
}

/// UTF-16 code units as little-endian bytes.
fn utf16_vec(units: &[u16]) -> (r: Vec<u8>)
    requires
        2 * units@.len() <= usize::MAX,
    ensures
        r@ == utf16_le(units@),
{
    let mut r: Vec<u8> = Vec::new();
    let mut i: usize = 0;
    while i < units.len()
        invariant
            i <= units@.len(),
            2 * units@.len() <= usize::MAX,
            r@.len() == 2 * i,
            forall|j: int| 0 <= j < 2 * i ==> r@[j] == utf16_le(units@)[j],
        decreases units@.len() - i,
    {
        let u = units[i];
        r.push((u & 0xff) as u8);
        r.push((u >> 8) as u8);
        i = i + 1;
    }
    proof {
        assert(r@ =~= utf16_le(units@));
    }
    r
}

/// No name.
fn no_units() -> (r: Vec<u16>)
    ensures
        r@ == Seq::<u16>::empty(),
{
    let r: Vec<u16> = Vec::new();
    proof {
        assert(r@ =~= Seq::<u16>::empty());
    }
    r
}

/// The header fields every attribute shares.
pub open spec fn header(a: Seq<u8>, ty: u32, total: nat, non_resident: bool, units: Seq<u16>, name_off: nat, flags: u16) -> Seq<u8> {
    let a1 = put(a, 0, le_bytes(ty as u64, 4));
    let a2 = put(a1, 4, le_bytes(total as u64, 4));
    let a3 = put(a2, 8, seq![if non_resident { 1u8 } else { 0u8 }]);
    let a4 = put(a3, 9, seq![units.len() as u8]);
    let a5 = put(a4, 10, le_bytes(name_off as u64, 2));
    let a6 = put(a5, 12, le_bytes(flags as u64, 2));
    put(a6, name_off as int, utf16_le(units))
}

/// A resident attribute holding `value`.
pub open spec fn resident_attr(ty: u32, flags: u16, units: Seq<u16>, value: Seq<u8>) -> Seq<u8> {
    let val_off = align8((24 + 2 * units.len()) as int);
    let total = align8(val_off + value.len());
    let a = header(zeros(total as nat), ty, total as nat, false, units, 24, flags);
    put(put(put(a, 16, le_bytes(value.len() as u64, 4)), 20, le_bytes(val_off as u64, 2)), val_off, value)
}

/// The one-cluster run list every non-resident fixture attribute carries.
pub open spec fn stub_runs() -> Seq<u8> {
    seq![0x11u8, 0x01u8, 0x01u8, 0x00u8]
}

/// A non-resident attribute; `total_alloc` is present exactly when a
/// compression unit is set.
pub open spec fn nonres_attr(ty: u32, flags: u16, units: Seq<u16>, lowest_vcn: u64, alloc: u64, real_size: u64, compression_unit: u16, total_alloc: Option<u64>) -> Seq<u8> {
    let name_off: int = if total_alloc is Some { 0x48 } else { 0x40 };
    let run_off = align8(name_off + 2 * units.len());
    let total = align8(run_off + 4);
    let a = header(zeros(total as nat), ty, total as nat, true, units, name_off as nat, flags);
    let b = put(put(put(put(a, 16, le_bytes(lowest_vcn, 8)), 24, le_bytes(lowest_vcn, 8)), 32, le_bytes(run_off as u64, 2)), 34, le_bytes(compression_unit as u64, 2));
    let c = put(put(put(b, 40, le_bytes(alloc, 8)), 48, le_bytes(real_size, 8)), 56, le_bytes(real_size, 8));
    let d = match total_alloc {
        Some(t) => put(c, 64, le_bytes(t, 8)),
        None => c,
    };
    put(d, run_off, stub_runs())
}

/// Writes the shared attribute header into `a`.
fn write_common_header(a: &mut Vec<u8>, ty: u32, total: usize, non_resident: bool, name_units: &[u16], name_off: usize, attr_flags: u16)
    requires
        name_off >= 14,
        total == old(a)@.len(),
        name_off + 2 * name_units@.len() <= total,
    ensures
        final(a)@.len() == old(a)@.len(),
        final(a)@ == header(old(a)@, ty, total as nat, non_resident, name_units@, name_off as nat, attr_flags),
{
    put_le(a, 0, ty as u64, 4);
    put_le(a, 4, total as u64, 4);
    put_byte(a, 8, if non_resident { 1u8 } else { 0u8 });
    put_byte(a, 9, name_units.len() as u8);
    put_le(a, 10, name_off as u64, 2);
    put_le(a, 12, attr_flags as u64, 2);
    let u = utf16_vec(name_units);
    put_bytes(a, name_off, u.as_slice());
}

fn align8_exec(n: usize) -> (r: usize)
    requires
        n + 7 <= usize::MAX,
    ensures
        r == align8(n as int),
        n <= r <= n + 7,
{
    (n + 7) / 8 * 8
}

fn resident_attr_exec(ty: u32, attr_flags: u16, units: &[u16], value: &[u8]) -> (r: Vec<u8>)
    requires
        units@.len() <= 0xFFFF,
        value@.len() + 2 * units@.len() + 48 <= usize::MAX,
    ensures
        r@ == resident_attr(ty, attr_flags, units@, value@),
{
    let name_off: usize = 24;
    let val_off = align8_exec(name_off + 2 * units.len());
    let total = align8_exec(val_off + value.len());
    let mut a = zero_vec(total);
    write_common_header(&mut a, ty, total, false, units, name_off, attr_flags);
    put_le(&mut a, 16, value.len() as u64, 4);
    put_le(&mut a, 20, val_off as u64, 2);
    put_bytes(&mut a, val_off, value);
    a
}

fn nonres_attr_exec(ty: u32, attr_flags: u16, units: &[u16], lowest_vcn: u64, alloc: u64, real_size: u64, compression_unit: u16, total_alloc: Option<u64>) -> (r: Vec<u8>)
    requires
        units@.len() <= 0xFFFF,
        (total_alloc is Some) == (compression_unit != 0),
    ensures
        r@ == nonres_attr(ty, attr_flags, units@, lowest_vcn, alloc, real_size, compression_unit, total_alloc),
{
    let name_off: usize = if total_alloc.is_some() { 0x48 } else { 0x40 };
    let run_off = align8_exec(name_off + 2 * units.len());
    let total = align8_exec(run_off + 4);
    let mut a = zero_vec(total);
    write_common_header(&mut a, ty, total, true, units, name_off, attr_flags);
    put_le(&mut a, 16, lowest_vcn, 8);
    put_le(&mut a, 24, lowest_vcn, 8);
    put_le(&mut a, 32, run_off as u64, 2);
    put_le(&mut a, 34, compression_unit as u64, 2);
    put_le(&mut a, 40, alloc, 8);
    put_le(&mut a, 48, real_size, 8);
    put_le(&mut a, 56, real_size, 8);
    match total_alloc {
        Some(t) => put_le(&mut a, 64, t, 8),
        None => {},
    }
    let runs: [u8; 4] = [0x11, 0x01, 0x01, 0x00];
    proof {
        assert(runs@ =~= stub_runs());
    }
    put_bytes(&mut a, run_off, runs.as_slice());
    a
}


/// `$STANDARD_INFORMATION`: all four timestamps set to `mtime`, then the
/// DOS attribute word.
pub open spec fn std_info_value(dos_attrs: u32, mtime: u64) -> Seq<u8> {
    let t = le_bytes(mtime, 8);
    put(put(put(put(put(zeros(0x48), 0x00, t), 0x08, t), 0x10, t), 0x18, t), 0x20, le_bytes(dos_attrs as u64, 4))
}

/// A file reference: record number in the low 48 bits, sequence above.
pub open spec fn file_ref(no: u64, seq: u16) -> u64 {
    no | ((seq as u64) << 48u64)
}

/// `$FILE_NAME`, with the duplicated sizes poisoned (they are stale on
/// real volumes, so a parser must not trust them).
pub open spec fn name_value(parent_ref: u64, namespace: u8, units: Seq<u16>) -> Seq<u8> {
    let v = zeros((0x42 + 2 * units.len()) as nat);
    let v1 = put(put(put(v, 0, le_bytes(parent_ref, 8)), 0x28, le_bytes(0x2222, 8)), 0x30, le_bytes(0x1111, 8));
    put(put(put(v1, 0x40, seq![units.len() as u8]), 0x41, seq![namespace]), 0x42, utf16_le(units))
}

/// `$REPARSE_POINT` holding just its tag.
pub open spec fn reparse_value(tag: u32) -> Seq<u8> {
    put(zeros(8), 0, le_bytes(tag as u64, 4))
}

/// A one-entry `$ATTRIBUTE_LIST` naming a `$STANDARD_INFORMATION` in
/// record 30.
pub open spec fn attribute_list_value() -> Seq<u8> {
    put(put(put(put(zeros(32), 0, le_bytes(0x10, 4)), 4, le_bytes(32, 2)), 7, seq![32u8]), 16, le_bytes(30, 8))
}

/// Unnamed non-resident `$DATA` whose run list is `runs`, covering VCNs up
/// to `highest_vcn`.
pub open spec fn runs_attr(real_size: u64, highest_vcn: u64, runs: Seq<u8>) -> Seq<u8> {
    let a = put(nonres_attr(0x80, 0, Seq::empty(), 0, real_size, real_size, 0, None), 24, le_bytes(highest_vcn, 8));
    let b = a.subrange(0, 0x40) + runs;
    let total = align8(b.len() as int);
    put(b + zeros((total - b.len()) as nat), 4, le_bytes(total as u64, 4))
}

/// The FILE-record header fields a builder carries.
#[derive(Clone, Copy, Debug, PartialEq, Eq)]
pub struct RecordHead {
    pub seq: u16,
    pub base_ref: u64,
    pub in_use: bool,
    pub is_dir: bool,
    pub name_count: u16,
}


/// Update-sequence entries of a record: one per 512-byte sector, plus the
/// sequence number itself.
pub open spec fn usa_count(rs: nat) -> u16 {
    (rs / 512 + 1) as u16
}

/// Where the first attribute starts: after the update-sequence array.
pub open spec fn first_attr(rs: nat) -> int {
    align8(0x30 + 2 * usa_count(rs))
}

/// An attribute with its instance id filled in.
pub open spec fn patched(a: Seq<u8>, id: int) -> Seq<u8> {
    put(a, 14, le_bytes(id as u64, 2))
}

/// The first `k` attributes, numbered, back to back.
pub open spec fn attr_area(attrs: Seq<Seq<u8>>, k: int) -> Seq<u8>
    decreases k,
{
    if k <= 0 {
        Seq::empty()
    } else {
        attr_area(attrs, k - 1) + patched(attrs[k - 1], k - 1)
    }
}

/// The FILE header of a record with `n_attrs` attributes.
pub open spec fn record_header(h: RecordHead, n_attrs: nat, no: u64, rs: nat) -> Seq<u8> {
    let flags: u16 = (if h.in_use { 1u16 } else { 0u16 }) | (if h.is_dir { 2u16 } else { 0u16 });
    let r0 = put(zeros(rs), 0, seq![0x46u8, 0x49u8, 0x4Cu8, 0x45u8]);
    let r1 = put(put(put(r0, 4, le_bytes(0x30, 2)), 6, le_bytes(usa_count(rs) as u64, 2)), 0x10, le_bytes(h.seq as u64, 2));
    let r2 = put(put(put(r1, 0x12, le_bytes(h.name_count as u64, 2)), 0x14, le_bytes(first_attr(rs) as u64, 2)), 0x16, le_bytes(flags as u64, 2));
    let r3 = put(put(put(r2, 0x1C, le_bytes(rs as u64, 4)), 0x20, le_bytes(h.base_ref, 8)), 0x28, le_bytes((n_attrs + 1) as u64, 2));
    put(put(r3, 0x2A, le_bytes(no >> 32u64, 2)), 0x2C, le_bytes(no, 4))
}

/// A record before update-sequence protection: header, attributes, end
/// marker, and the bytes-in-use field.
pub open spec fn raw_record(h: RecordHead, attrs: Seq<Seq<u8>>, no: u64, rs: nat) -> Seq<u8> {
    let area = attr_area(attrs, attrs.len() as int);
    let body = put(record_header(h, attrs.len(), no, rs), first_attr(rs), area + le_bytes(0xFFFF_FFFF, 4));
    put(body, 0x18, le_bytes((first_attr(rs) + area.len() + 4) as u64, 4))
}

/// Update-sequence protection from sector `i` on: each sector's last two
/// bytes move into the array and are replaced by the sequence number.
pub open spec fn protect_from(r: Seq<u8>, usn: Seq<u8>, count: int, i: int) -> Seq<u8>
    decreases count - i,
{
    if i < 1 || i >= count {
        r
    } else {
        let end = i * 512 - 2;
        protect_from(put(put(r, 0x30 + 2 * i, r.subrange(end, end + 2)), end, usn), usn, count, i + 1)
    }
}

/// The on-disk bytes of a record.
pub open spec fn record_image(h: RecordHead, attrs: Seq<Seq<u8>>, no: u64, rs: nat) -> Seq<u8> {
    let usn = le_bytes((h.seq | 0x4B00u16) as u64, 2);
    protect_from(put(raw_record(h, attrs, no, rs), 0x30, usn), usn, usa_count(rs) as int, 1)
}

/// Total length of the attributes.
pub open spec fn attrs_len(attrs: Seq<Seq<u8>>, k: int) -> int
    decreases k,
{
    if k <= 0 {
        0
    } else {
        attrs_len(attrs, k - 1) + attrs[k - 1].len()
    }
}

proof fn lemma_attr_area_len(attrs: Seq<Seq<u8>>, k: int)
    requires
        0 <= k <= attrs.len(),
        forall|j: int| 0 <= j < attrs.len() ==> #[trigger] attrs[j].len() >= 24,
    ensures
        attr_area(attrs, k).len() == attrs_len(attrs, k),
        attrs_len(attrs, k) >= 0,
    decreases k,
{
    if k > 0 {
        lemma_attr_area_len(attrs, k - 1);
    }
}

proof fn lemma_attrs_len_mono(attrs: Seq<Seq<u8>>, j: int, k: int)
    requires
        0 <= j <= k <= attrs.len(),
    ensures
        attrs_len(attrs, j) <= attrs_len(attrs, k),
    decreases k - j,
{
    if j < k {
        lemma_attrs_len_mono(attrs, j, k - 1);
    }
}

proof fn lemma_put_append(x: Seq<u8>, a: Seq<u8>, k: int, c: Seq<u8>)
    requires
        0 <= k,
        k + c.len() <= a.len(),
    ensures
        put(x + a, x.len() + k, c) == x + put(a, k, c),
{
    assert(put(x + a, x.len() + k, c) =~= x + put(a, k, c));
}

proof fn lemma_as_u16_le(x: nat)
    ensures
        (x as u16) <= x,
{
    if x > 0xFFFF {
        assert((x as u16) <= 0xFFFF);
    }
}

/// A FILE record under construction: header fields plus its attributes,
/// in order.
#[derive(Clone, Debug)]
pub struct RecordBuilder {
    head: RecordHead,
    attrs: Vec<Vec<u8>>,
}

/// The record header fields of a fresh in-use file.
pub open spec fn file_head() -> RecordHead {
    RecordHead { seq: 1, base_ref: 0, in_use: true, is_dir: false, name_count: 0 }
}

impl RecordBuilder {
    /// The header fields.
    pub closed spec fn spec_head(&self) -> RecordHead {
        self.head
    }

    /// The attributes, in order.
    pub closed spec fn spec_attrs(&self) -> Seq<Seq<u8>> {
        self.attrs@.map_values(|a: Vec<u8>| a@)
    }

    /// Every attribute is long enough to carry its header's id field.
    pub open spec fn wf(&self) -> bool {
        forall|k: int| 0 <= k < self.spec_attrs().len() ==> #[trigger] self.spec_attrs()[k].len() >= 24
    }

    fn with_attr(self, a: Vec<u8>) -> (r: Self)
        requires
            self.wf(),
            a@.len() >= 24,
        ensures
            r.spec_head() == self.spec_head(),
            r.spec_attrs() == self.spec_attrs().push(a@),
            r.wf(),
    {
        let mut attrs = self.attrs;
        let ghost old_attrs = attrs@;
        attrs.push(a);
        let r = RecordBuilder { head: self.head, attrs };
        proof {
            assert(r.spec_attrs() =~= self.spec_attrs().push(a@));
        }
        r
    }

    pub fn file() -> (r: Self)
        ensures
            r.spec_head() == file_head(),
            r.spec_attrs() == Seq::<Seq<u8>>::empty(),
            r.wf(),
    {
        let r = RecordBuilder { head: RecordHead { seq: 1, base_ref: 0, in_use: true, is_dir: false, name_count: 0 }, attrs: Vec::new() };
        proof {
            assert(r.spec_attrs() =~= Seq::<Seq<u8>>::empty());
        }
        r
    }

    pub fn dir() -> (r: Self)
        ensures
            r.spec_head() == (RecordHead { is_dir: true, ..file_head() }),
            r.spec_attrs() == Seq::<Seq<u8>>::empty(),
            r.wf(),
    {
        let f = Self::file();
        RecordBuilder { head: RecordHead { is_dir: true, ..f.head }, attrs: f.attrs }
    }

    pub fn free() -> (r: Self)
        ensures
            r.spec_head() == (RecordHead { in_use: false, ..file_head() }),
            r.spec_attrs() == Seq::<Seq<u8>>::empty(),
            r.wf(),
    {
        let f = Self::file();
        RecordBuilder { head: RecordHead { in_use: false, ..f.head }, attrs: f.attrs }
    }

    pub fn seq(self, seq: u16) -> (r: Self)
        ensures
            r.spec_head() == (RecordHead { seq, ..self.spec_head() }),
            r.spec_attrs() == self.spec_attrs(),
            self.wf() ==> r.wf(),
    {
        RecordBuilder { head: RecordHead { seq, ..self.head }, attrs: self.attrs }
    }

    pub fn extension_of(self, base_no: u64, base_seq: u16) -> (r: Self)
        ensures
            r.spec_head() == (RecordHead { base_ref: file_ref(base_no, base_seq), ..self.spec_head() }),
            r.spec_attrs() == self.spec_attrs(),
            self.wf() ==> r.wf(),
    {
        let base_ref = base_no | (base_seq as u64) << 48u64;
        RecordBuilder { head: RecordHead { base_ref, ..self.head }, attrs: self.attrs }
    }

    pub fn std_info(self, dos_attrs: u32, mtime_filetime: u64) -> (r: Self)
        requires
            self.wf(),
        ensures
            r.spec_head() == self.spec_head(),
            r.spec_attrs() == self.spec_attrs().push(resident_attr(0x10, 0, Seq::empty(), std_info_value(dos_attrs, mtime_filetime))),
            r.wf(),
    {
        let mut v = zero_vec(0x48);
        put_le(&mut v, 0x00, mtime_filetime, 8);
        put_le(&mut v, 0x08, mtime_filetime, 8);
        put_le(&mut v, 0x10, mtime_filetime, 8);
        put_le(&mut v, 0x18, mtime_filetime, 8);
        put_le(&mut v, 0x20, dos_attrs as u64, 4);
        let none = no_units();
        let a = resident_attr_exec(0x10, 0, none.as_slice(), v.as_slice());
        self.with_attr(a)
    }

    /// $FILE_NAME. Namespaces: 0 POSIX, 1 Win32, 2 DOS, 3 Win32&DOS.
    pub fn name(self, parent_no: u64, parent_seq: u16, namespace: u8, name: &str) -> (r: Self)
        requires
            self.wf(),
            self.spec_head().name_count < u16::MAX,
            utf16_of(name@).len() <= 255,
        ensures
            r.spec_head() == (RecordHead { name_count: (self.spec_head().name_count + 1) as u16, ..self.spec_head() }),
            r.spec_attrs() == self.spec_attrs().push(resident_attr(0x30, 0, Seq::empty(), name_value(file_ref(parent_no, parent_seq), namespace, utf16_of(name@)))),
            r.wf(),
    {
        let units = utf16_units(name);
        self.name_utf16(parent_no, parent_seq, namespace, units.as_slice())
    }

    pub fn name_utf16(self, parent_no: u64, parent_seq: u16, namespace: u8, units: &[u16]) -> (r: Self)
        requires
            self.wf(),
            self.spec_head().name_count < u16::MAX,
            units@.len() <= 255,
        ensures
            r.spec_head() == (RecordHead { name_count: (self.spec_head().name_count + 1) as u16, ..self.spec_head() }),
            r.spec_attrs() == self.spec_attrs().push(resident_attr(0x30, 0, Seq::empty(), name_value(file_ref(parent_no, parent_seq), namespace, units@))),
            r.wf(),
    {
        let mut v = zero_vec(0x42 + 2 * units.len());
        let parent_ref = parent_no | (parent_seq as u64) << 48u64;
        put_le(&mut v, 0, parent_ref, 8);
        put_le(&mut v, 0x28, 0x2222, 8);
        put_le(&mut v, 0x30, 0x1111, 8);
        put_byte(&mut v, 0x40, units.len() as u8);
        put_byte(&mut v, 0x41, namespace);
        let u = utf16_vec(units);
        put_bytes(&mut v, 0x42, u.as_slice());
        let none = no_units();
        let a = resident_attr_exec(0x30, 0, none.as_slice(), v.as_slice());
        let mut r = self.with_attr(a);
        r.head.name_count = r.head.name_count + 1;
        r
    }

    pub fn data_resident_bytes(self, content: &[u8]) -> (r: Self)
        requires
            self.wf(),
            content@.len() + 48 <= usize::MAX,
        ensures
            r.spec_head() == self.spec_head(),
            r.spec_attrs() == self.spec_attrs().push(resident_attr(0x80, 0, Seq::empty(), content@)),
            r.wf(),
    {
        let none = no_units();
        let a = resident_attr_exec(0x80, 0, none.as_slice(), content);
        self.with_attr(a)
    }

    pub fn data_nonresident(self, real_size: u64, alloc: u64) -> (r: Self)
        requires
            self.wf(),
        ensures
            r.spec_head() == self.spec_head(),
            r.spec_attrs() == self.spec_attrs().push(nonres_attr(0x80, 0, Seq::empty(), 0, alloc, real_size, 0, None)),
            r.wf(),
    {
        self.push_nonres(0x0000, no_units().as_slice(), 0, alloc, real_size, 0, None)
    }

    /// NTFS-compressed $DATA: `alloc` is the VCN-span allocation,
    /// `total_alloc` the truly backed bytes (what a parser must report).
    pub fn data_nonresident_compressed(self, real_size: u64, alloc: u64, total_alloc: u64) -> (r: Self)
        requires
            self.wf(),
        ensures
            r.spec_head() == self.spec_head(),
            r.spec_attrs() == self.spec_attrs().push(nonres_attr(0x80, 0x0001, Seq::empty(), 0, alloc, real_size, 4, Some(total_alloc))),
            r.wf(),
    {
        self.push_nonres(0x0001, no_units().as_slice(), 0, alloc, real_size, 4, Some(total_alloc))
    }

    pub fn data_nonresident_sparse(self, real_size: u64, backed: u64) -> (r: Self)
        requires
            self.wf(),
        ensures
            r.spec_head() == self.spec_head(),
            r.spec_attrs() == self.spec_attrs().push(nonres_attr(0x80, 0x8000, Seq::empty(), 0, real_size, real_size, 4, Some(backed))),
            r.wf(),
    {
        self.push_nonres(0x8000, no_units().as_slice(), 0, real_size, real_size, 4, Some(backed))
    }

    pub fn data_nonresident_with_runs(self, real_size: u64, highest_vcn: u64, runs: &[u8]) -> (r: Self)
        requires
            self.wf(),
            runs@.len() + 0x48 <= usize::MAX,
        ensures
            r.spec_head() == self.spec_head(),
            r.spec_attrs() == self.spec_attrs().push(runs_attr(real_size, highest_vcn, runs@)),
            r.wf(),
    {
        let none = no_units();
        let mut a = nonres_attr_exec(0x80, 0, none.as_slice(), 0, real_size, real_size, 0, None);
        put_le(&mut a, 24, highest_vcn, 8);
        let ghost a0 = a@;
        // the run list starts right after the unnamed header
        let run_off: usize = 0x40;
        a.truncate(run_off);
        let mut i: usize = 0;
        while i < runs.len()
            invariant
                i <= runs@.len(),
                a@ == a0.subrange(0, 0x40) + runs@.subrange(0, i as int),
            decreases runs@.len() - i,
        {
            a.push(runs[i]);
            i = i + 1;
            proof {
                assert(a@ =~= a0.subrange(0, 0x40) + runs@.subrange(0, i as int));
            }
        }
        proof {
            assert(runs@.subrange(0, i as int) =~= runs@);
        }
        let ghost b = a@;
        let total = align8_exec(a.len());
        while a.len() < total
            invariant
                b.len() <= a@.len() <= total,
                total == align8(b.len() as int),
                a@ == b + zeros((a@.len() - b.len()) as nat),
            decreases total - a@.len(),
        {
            a.push(0u8);
            proof {
                assert(a@ =~= b + zeros((a@.len() - b.len()) as nat));
            }
        }
        put_le(&mut a, 4, total as u64, 4);
        self.with_attr(a)
    }

    pub fn named_data_nonresident(self, stream: &str, real_size: u64, alloc: u64) -> (r: Self)
        requires
            self.wf(),
            utf16_of(stream@).len() <= 0xFFFF,
        ensures
            r.spec_head() == self.spec_head(),
            r.spec_attrs() == self.spec_attrs().push(nonres_attr(0x80, 0, utf16_of(stream@), 0, alloc, real_size, 0, None)),
            r.wf(),
    {
        let units = utf16_units(stream);
        self.push_nonres(0, units.as_slice(), 0, alloc, real_size, 0, None)
    }

    /// Continuation fragment (lowest VCN > 0); its sizes are poison values:
    /// only the VCN-0 fragment's sizes are real.
    pub fn data_continuation(self, lowest_vcn: u64) -> (r: Self)
        requires
            self.wf(),
        ensures
            r.spec_head() == self.spec_head(),
            r.spec_attrs() == self.spec_attrs().push(nonres_attr(0x80, 0, Seq::empty(), lowest_vcn, 0xD1E5, 0xD1E5, 0, None)),
            r.wf(),
    {
        self.push_nonres(0, no_units().as_slice(), lowest_vcn, 0xD1E5, 0xD1E5, 0, None)
    }

    pub fn reparse(self, tag: u32) -> (r: Self)
        requires
            self.wf(),
        ensures
            r.spec_head() == self.spec_head(),
            r.spec_attrs() == self.spec_attrs().push(resident_attr(0xC0, 0, Seq::empty(), reparse_value(tag))),
            r.wf(),
    {
        let mut v = zero_vec(8);
        put_le(&mut v, 0, tag as u64, 4);
        let none = no_units();
        let a = resident_attr_exec(0xC0, 0, none.as_slice(), v.as_slice());
        self.with_attr(a)
    }

    pub fn attribute_list_stub(self) -> (r: Self)
        requires
            self.wf(),
        ensures
            r.spec_head() == self.spec_head(),
            r.spec_attrs() == self.spec_attrs().push(resident_attr(0x20, 0, Seq::empty(), attribute_list_value())),
            r.wf(),
    {
        let mut v = zero_vec(32);
        put_le(&mut v, 0, 0x10, 4);
        put_le(&mut v, 4, 32, 2);
        put_byte(&mut v, 7, 32);
        put_le(&mut v, 16, 30, 8);
        let none = no_units();
        let a = resident_attr_exec(0x20, 0, none.as_slice(), v.as_slice());
        self.with_attr(a)
    }

    /// The record's on-disk bytes as record number `record_no` of a volume
    /// with `record_size`-byte records.
    pub fn build(&self, record_no: u64, record_size: usize) -> (r: Vec<u8>)
        requires
            self.wf(),
            record_size >= 512,
            is_pow2(record_size as int),
            self.spec_attrs().len() < 0xFFFF,
            first_attr(record_size as nat) + attrs_len(self.spec_attrs(), self.spec_attrs().len() as int) + 8 <= record_size,
        ensures
            r@.len() == record_size,
            r@ == record_image(self.spec_head(), self.spec_attrs(), record_no, record_size as nat),
    {
        let ghost rs = record_size as nat;
        let ghost attrs = self.spec_attrs();
        let ghost n = attrs.len() as int;
        let mut rec = zero_vec(record_size);
        let sectors = record_size / 512;
        let usa_off: usize = 0x30;
        #[verifier::truncate]
        let usa_count = (sectors + 1) as u16;
        let first = align8_exec(usa_off + 2 * usa_count as usize);
        let magic: [u8; 4] = [0x46, 0x49, 0x4C, 0x45];
        proof {
            assert(magic@ =~= seq![0x46u8, 0x49u8, 0x4Cu8, 0x45u8]);
            lemma_attr_area_len(attrs, n);
        }
        put_bytes(&mut rec, 0, magic.as_slice());
        put_le(&mut rec, 4, usa_off as u64, 2);
        put_le(&mut rec, 6, usa_count as u64, 2);
        put_le(&mut rec, 0x10, self.head.seq as u64, 2);
        put_le(&mut rec, 0x12, self.head.name_count as u64, 2);
        put_le(&mut rec, 0x14, first as u64, 2);
        let flags: u16 = (if self.head.in_use { 1u16 } else { 0u16 }) | (if self.head.is_dir { 2u16 } else { 0u16 });
        put_le(&mut rec, 0x16, flags as u64, 2);
        put_le(&mut rec, 0x1C, record_size as u64, 4);
        put_le(&mut rec, 0x20, self.head.base_ref, 8);
        put_le(&mut rec, 0x28, (self.attrs.len() as u16 + 1) as u64, 2);
        put_le(&mut rec, 0x2A, record_no >> 32u64, 2);
        put_le(&mut rec, 0x2C, record_no, 4);
        let ghost hdr = rec@;
        assert(hdr == record_header(self.spec_head(), attrs.len(), record_no, rs));
        let mut pos = first;
        let mut id: usize = 0;
        while id < self.attrs.len()
            invariant
                self.wf(),
                attrs == self.spec_attrs(),
                n == attrs.len(),
                n == self.attrs@.len(),
                rs == record_size,
                id <= n,
                first == first_attr(rs),
                first + attrs_len(attrs, n) + 8 <= rs,
                rec@.len() == rs,
                hdr.len() == rs,
                pos == first + attrs_len(attrs, id as int),
                rec@ == put(hdr, first as int, attr_area(attrs, id as int)),
            decreases n - id,
        {
            let attr = &self.attrs[id];
            proof {
                assert(attrs[id as int] == attr@);
                lemma_attrs_len_mono(attrs, id + 1, n);
                lemma_attr_area_len(attrs, id as int);
                assert(attr@.len() >= 24);
            }
            let ghost area = attr_area(attrs, id as int);
            put_bytes(&mut rec, pos, attr.as_slice());
            put_le(&mut rec, pos + 14, id as u64, 2);
            proof {
                lemma_put_join(hdr, first as int, area, attr@);
                lemma_put_inside(hdr, first as int, area + attr@, (area.len() + 14) as int, le_bytes(id as u64, 2));
                lemma_put_append(area, attr@, 14, le_bytes(id as u64, 2));
                assert(attr_area(attrs, id + 1) == area + patched(attr@, id as int));
            }
            pos = pos + attr.len();
            id = id + 1;
        }
        let ghost area = attr_area(attrs, n);
        let ghost term = le_bytes(0xFFFF_FFFF, 4);
        put_le(&mut rec, pos, 0xFFFF_FFFF, 4);
        proof {
            lemma_put_join(hdr, first as int, area, term);
        }
        pos = pos + 4;
        put_le(&mut rec, 0x18, pos as u64, 4);
        let ghost raw = rec@;
        assert(raw == raw_record(self.spec_head(), attrs, record_no, rs));
        let usn = le_vec((self.head.seq | 0x4B00u16) as u64, 2);
        put_bytes(&mut rec, usa_off, usn.as_slice());
        proof {
            lemma_as_u16_le((record_size / 512 + 1) as nat);
            assert(sectors * 512 <= record_size) by (nonlinear_arith)
                requires
                    sectors == record_size / 512,
            ;
        }
        let mut i: usize = 1;
        while i < usa_count as usize
            invariant
                1 <= i,
                usa_off == 0x30,
                usa_count as int <= sectors + 1,
                sectors * 512 <= record_size,
                0x30 + 2 * usa_count <= first,
                first + 8 <= rs,
                rs == record_size,
                rec@.len() == rs,
                usn@ == le_bytes((self.spec_head().seq | 0x4B00u16) as u64, 2),
                protect_from(put(raw, 0x30, usn@), usn@, usa_count as int, 1) == protect_from(rec@, usn@, usa_count as int, i as int),
            decreases usa_count - i,
        {
            proof {
                assert(i * 512 <= sectors * 512) by (nonlinear_arith)
                    requires
                        i <= sectors,
                ;
            }
            let end = i * 512 - 2;
            let pair: [u8; 2] = [rec[end], rec[end + 1]];
            let ghost before = rec@;
            proof {
                assert(pair@ =~= before.subrange(end as int, end + 2));
            }
            put_bytes(&mut rec, usa_off + 2 * i, pair.as_slice());
            put_bytes(&mut rec, end, usn.as_slice());
            i = i + 1;
        }
        rec
    }

    fn push_nonres(self, attr_flags: u16, units: &[u16], lowest_vcn: u64, alloc: u64, real_size: u64, compression_unit: u16, total_alloc: Option<u64>) -> (r: Self)
        requires
            self.wf(),
            units@.len() <= 0xFFFF,
            (total_alloc is Some) == (compression_unit != 0),
        ensures
            r.spec_head() == self.spec_head(),
            r.spec_attrs() == self.spec_attrs().push(nonres_attr(0x80, attr_flags, units@, lowest_vcn, alloc, real_size, compression_unit, total_alloc)),
            r.wf(),
    {
        let a = nonres_attr_exec(0x80, attr_flags, units, lowest_vcn, alloc, real_size, compression_unit, total_alloc);
        self.with_attr(a)
    }
}


/// The highest record number in `records` (0 when there are none).
pub open spec fn max_record_no(records: Seq<(u64, RecordBuilder)>) -> u64
    decreases records.len(),
{
    if records.len() == 0 {
        0
    } else {
        let m = max_record_no(records.drop_last());
        if records.last().0 > m {
            records.last().0
        } else {
            m
        }
    }
}

/// `img` with the first `k` records laid down at their slots, in order.
pub open spec fn image_from(img: Seq<u8>, records: Seq<(u64, RecordBuilder)>, rs: nat, k: int) -> Seq<u8>
    decreases k,
{
    if k <= 0 {
        img
    } else {
        let (no, b) = records[k - 1];
        put(image_from(img, records, rs, k - 1), no * rs, record_image(b.spec_head(), b.spec_attrs(), no, rs))
    }
}

/// A zero-filled `$MFT` just large enough for the highest record, with
/// each record written at its slot.
pub open spec fn volume_image(rs: nat, records: Seq<(u64, RecordBuilder)>) -> Seq<u8> {
    image_from(zeros(((max_record_no(records) + 1) * rs) as nat), records, rs, records.len() as int)
}

/// What `build` needs of a record.
pub open spec fn buildable(b: RecordBuilder, rs: nat) -> bool {
    &&& b.wf()
    &&& b.spec_attrs().len() < 0xFFFF
    &&& first_attr(rs) + attrs_len(b.spec_attrs(), b.spec_attrs().len() as int) + 8 <= rs
}

proof fn lemma_max_record_no(records: Seq<(u64, RecordBuilder)>, k: int)
    requires
        0 <= k < records.len(),
    ensures
        records[k].0 <= max_record_no(records),
    decreases records.len(),
{
    if k < records.len() - 1 {
        lemma_max_record_no(records.drop_last(), k);
        assert(records.drop_last()[k] == records[k]);
    }
}

/// A `$MFT` image holding `records` at their record numbers.
pub fn image(record_size: usize, records: Vec<(u64, RecordBuilder)>) -> (r: Vec<u8>)
    requires
        record_size >= 512,
        is_pow2(record_size as int),
        forall|k: int| 0 <= k < records@.len() ==> buildable(#[trigger] records@[k].1, record_size as nat),
        (max_record_no(records@) + 1) * record_size <= usize::MAX,
    ensures
        r@ == volume_image(record_size as nat, records@),
{
    let ghost rs = record_size as nat;
    let mut max: u64 = 0;
    let mut k: usize = 0;
    while k < records.len()
        invariant
            k <= records@.len(),
            max == max_record_no(records@.subrange(0, k as int)),
        decreases records@.len() - k,
    {
        proof {
            assert(records@.subrange(0, k + 1).drop_last() =~= records@.subrange(0, k as int));
        }
        if records[k].0 > max {
            max = records[k].0;
        }
        k = k + 1;
    }
    proof {
        assert(records@.subrange(0, k as int) =~= records@);
    }
    proof {
        assert(max + 1 <= (max + 1) * record_size) by (nonlinear_arith)
            requires
                record_size >= 1,
        ;
    }
    let total = (max as usize + 1) * record_size;
    let mut img = zero_vec(total);
    let ghost img0 = img@;
    let mut k: usize = 0;
    while k < records.len()
        invariant
            k <= records@.len(),
            rs == record_size,
            record_size >= 512,
            is_pow2(record_size as int),
            forall|j: int| 0 <= j < records@.len() ==> buildable(#[trigger] records@[j].1, rs),
            max == max_record_no(records@),
            total == (max + 1) * record_size,
            max + 1 <= total,
            img@.len() == total,
            img0 == zeros(total as nat),
            img@ == image_from(img0, records@, rs, k as int),
        decreases records@.len() - k,
    {
        let no = records[k].0;
        proof {
            lemma_max_record_no(records@, k as int);
            assert(buildable(records@[k as int].1, rs));
            assert((no + 1) * record_size <= (max + 1) * record_size) by (nonlinear_arith)
                requires
                    no <= max,
            ;
            assert((no + 1) * record_size == no * record_size + record_size) by (nonlinear_arith);
        }
        let built = records[k].1.build(no, record_size);
        assert(no * record_size + record_size <= total);
        let off = no as usize * record_size;
        put_bytes(&mut img, off, built.as_slice());
        k = k + 1;
    }
    img
}

/// The volume root directory's record: record 5, sequence 5, named ".".
pub fn root_dir() -> (r: RecordBuilder)
    ensures
        r.spec_head() == (RecordHead { seq: 5, is_dir: true, name_count: 1, ..file_head() }),
        r.spec_attrs() == seq![
            resident_attr(0x30, 0, Seq::empty(), name_value(file_ref(5, 5), 3, seq![0x2Eu16])),
            resident_attr(0x10, 0, Seq::empty(), std_info_value(0x6, 0)),
        ],
        r.wf(),
{
    proof {
        reveal_strlit(".");
        assert("."@.len() == 1);
        assert("."@.last() == '.');
        assert("."@.drop_last() =~= Seq::<char>::empty());
        assert(utf16_of(Seq::<char>::empty()) =~= Seq::<u16>::empty());
        assert(('.' as u32) == 0x2E);
        assert(unit_of('.') =~= seq![0x2Eu16]);
        assert(utf16_of("."@) =~= seq![0x2Eu16]);
    }
    RecordBuilder::dir().seq(5).name(5, 5, 3, ".").std_info(0x6, 0)
}

} // verus!
