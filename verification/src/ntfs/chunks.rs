//! How the sweep's result depends on the way the $MFT is cut into buffers.
//!
//! A record's parse touches its name arena only by appending the names it
//! decodes, and a name points at its text by byte offset. So the facts a
//! record yields are the same whatever arena it is parsed into, but for
//! where its name lies; and the text of that name is the same. From this
//! follows that consuming two adjacent buffers one after the other fills
//! the table that consuming them joined fills.

use vstd::prelude::*;

use crate::ntfs::ParseError;
use crate::ntfs::pipeline::{Slot, apply_patches, arena_after, arena_at, base_slot, merged, patches_after, rec_of, result_at, slot_name, slot_of, slots_after, task_arenas, torn_after, TASK_RECORDS};
use crate::ntfs::record::{NameFact, RecordFacts, attr_step, initial_facts, name_step, record_parse, walk};
use crate::text::{boundary, bytes_of, lemma_boundary_extend, lemma_boundary_shift, lemma_encode_concat};

verus! {

/// The facts with their name (if any) `d` bytes further into its arena.
pub open spec fn shifted(f: RecordFacts, d: int) -> RecordFacts {
    match f.name {
        Some(n) => RecordFacts { name: Some(NameFact { off: (n.off + d) as u32, ..n }), ..f },
        None => f,
    }
}

pub open spec fn shifted_walk(w: Result<RecordFacts, ParseError>, d: int) -> Result<RecordFacts, ParseError> {
    match w {
        Ok(f) => Ok(shifted(f, d)),
        Err(e) => Err(e),
    }
}

pub open spec fn shifted_parse(w: Result<Option<RecordFacts>, ParseError>, d: int) -> Result<Option<RecordFacts>, ParseError> {
    match w {
        Ok(Some(f)) => Ok(Some(shifted(f, d))),
        _ => w,
    }
}

/// The name, if any, lies within the arena's bytes.
pub open spec fn name_within(f: RecordFacts, arena: Seq<char>) -> bool {
    match f.name {
        Some(n) => n.off + n.len <= bytes_of(arena).len(),
        None => true,
    }
}

/// `a` is where `b` starts.
pub open spec fn starts(a: Seq<char>, b: Seq<char>) -> bool {
    a.len() <= b.len() && b.subrange(0, a.len() as int) == a
}

proof fn lemma_starts_bytes(a: Seq<char>, b: Seq<char>)
    requires
        starts(a, b),
    ensures
        bytes_of(a).len() <= bytes_of(b).len(),
{
    let d = b.subrange(a.len() as int, b.len() as int);
    assert(b =~= a + d);
    lemma_encode_concat(a, d);
}

/// One attribute's step, parsed into an arena with `x` before it.
proof fn lemma_attr_step_shift(at: Seq<u8>, f: RecordFacts, a: Seq<char>, x: Seq<char>)
    ensures
        starts(a, attr_step(at, f, a).1),
        bytes_of(attr_step(at, shifted(f, bytes_of(x).len() as int), x + a).1).len() < 0x1_0000_0000 ==> attr_step(at, shifted(f, bytes_of(x).len() as int), x + a)
            == (shifted_walk(attr_step(at, f, a).0, bytes_of(x).len() as int), x + attr_step(at, f, a).1),
        bytes_of(attr_step(at, f, a).1).len() < 0x1_0000_0000 && name_within(f, a) && attr_step(at, f, a).0 is Ok
            ==> name_within(attr_step(at, f, a).0->Ok_0, attr_step(at, f, a).1),
{
    let xl = bytes_of(x).len() as int;
    let g = shifted(f, xl);
    let (w, ar) = attr_step(at, f, a);
    assert(a.subrange(0, a.len() as int) =~= a);
    let t = crate::ntfs::le_at(at, 0, 4);
    if t == crate::ntfs::record::ATTR_STANDARD_INFORMATION {
        assert(crate::ntfs::record::std_info_step(at, g) == shifted_walk(crate::ntfs::record::std_info_step(at, f), xl));
    } else if t == crate::ntfs::record::ATTR_FILE_NAME {
        lemma_name_step_shift(at, f, a, x);
    } else if t == crate::ntfs::record::ATTR_DATA {
        assert(crate::ntfs::record::data_step(at, g) == shifted_walk(crate::ntfs::record::data_step(at, f), xl));
    } else if t == crate::ntfs::record::ATTR_REPARSE_POINT {
        assert(crate::ntfs::record::reparse_step(at, g) == shifted(crate::ntfs::record::reparse_step(at, f), xl));
    }
}

/// A $FILE_NAME step, parsed into an arena with `x` before it.
proof fn lemma_name_step_shift(at: Seq<u8>, f: RecordFacts, a: Seq<char>, x: Seq<char>)
    ensures
        starts(a, name_step(at, f, a).1),
        bytes_of(name_step(at, shifted(f, bytes_of(x).len() as int), x + a).1).len() < 0x1_0000_0000 ==> name_step(at, shifted(f, bytes_of(x).len() as int), x + a)
            == (shifted_walk(name_step(at, f, a).0, bytes_of(x).len() as int), x + name_step(at, f, a).1),
        bytes_of(name_step(at, f, a).1).len() < 0x1_0000_0000 && name_within(f, a) && name_step(at, f, a).0 is Ok
            ==> name_within(name_step(at, f, a).0->Ok_0, name_step(at, f, a).1),
{
    let xl = bytes_of(x).len() as int;
    let g = shifted(f, xl);
    let (w, ar) = name_step(at, f, a);
    assert(a.subrange(0, a.len() as int) =~= a);
    match crate::ntfs::record::resident_value(at) {
        Ok(Some(v)) => {
            if v.len() >= 0x42 {
                let chars = v[0x40] as int;
                if 0x42 + 2 * chars <= v.len() {
                    let rank = crate::ntfs::record::spec_name_rank(v[0x41]);
                    let better = match f.name {
                        None => true,
                        Some(n) => rank < n.rank,
                    };
                    if better {
                        let dec = crate::ntfs::record::decode_utf16(crate::ntfs::record::units_at(v, 0x42, chars), 0);
                        assert(ar == a + dec);
                        assert(ar.subrange(0, a.len() as int) =~= a);
                        lemma_encode_concat(a, dec);
                        lemma_encode_concat(x, a);
                        lemma_encode_concat(x + a, dec);
                        assert(x + ar =~= (x + a) + dec);
                        assert(name_step(at, g, x + a).1 == (x + a) + dec);
                        if bytes_of(x + ar).len() < 0x1_0000_0000 {
                            assert(name_step(at, g, x + a) == (shifted_walk(w, xl), x + ar));
                        }
                    } else {
                        assert(name_step(at, g, x + a) == (shifted_walk(w, xl), x + ar));
                    }
                }
            }
        },
        _ => {},
    }
}

proof fn lemma_starts_trans(a: Seq<char>, b: Seq<char>, c: Seq<char>)
    requires
        starts(a, b),
        starts(b, c),
    ensures
        starts(a, c),
{
    assert(c.subrange(0, a.len() as int) =~= c.subrange(0, b.len() as int).subrange(0, a.len() as int));
}

/// The attribute walk, parsed into an arena with `x` before it.
proof fn lemma_walk_shift(r: Seq<u8>, limit: int, pos: int, f: RecordFacts, a: Seq<char>, x: Seq<char>)
    ensures
        starts(a, walk(r, limit, pos, f, a).1),
        bytes_of(walk(r, limit, pos, shifted(f, bytes_of(x).len() as int), x + a).1).len() < 0x1_0000_0000 ==> walk(r, limit, pos, shifted(f, bytes_of(x).len() as int), x + a)
            == (shifted_walk(walk(r, limit, pos, f, a).0, bytes_of(x).len() as int), x + walk(r, limit, pos, f, a).1),
        bytes_of(walk(r, limit, pos, f, a).1).len() < 0x1_0000_0000 && name_within(f, a) && walk(r, limit, pos, f, a).0 is Ok
            ==> name_within(walk(r, limit, pos, f, a).0->Ok_0, walk(r, limit, pos, f, a).1),
    decreases limit - pos,
{
    assert(a.subrange(0, a.len() as int) =~= a);
    if pos < 0 || pos + 4 > limit || limit > r.len() {
    } else if crate::ntfs::le_at(r, pos, 4) == crate::ntfs::record::ATTR_END {
    } else if pos + 8 > limit {
    } else {
        let alen = crate::ntfs::le_at(r, pos + 4, 4);
        if alen < 24 || alen % 8 != 0 || pos + alen > limit {
        } else {
            let at = r.subrange(pos, pos + alen);
            lemma_attr_step_shift(at, f, a, x);
            let g = shifted(f, bytes_of(x).len() as int);
            let (w, ar) = attr_step(at, f, a);
            let (wb, arb) = attr_step(at, g, x + a);
            if wb is Ok {
                lemma_walk_shift(r, limit, pos + alen, wb->Ok_0, arb, Seq::empty());
                lemma_starts_bytes(arb, walk(r, limit, pos + alen, wb->Ok_0, arb).1);
            }
            if w is Ok {
                let f2 = w->Ok_0;
                lemma_walk_shift(r, limit, pos + alen, f2, ar, x);
                let fin = walk(r, limit, pos + alen, f2, ar).1;
                lemma_starts_trans(a, ar, fin);
                lemma_starts_bytes(ar, fin);
            }
        }
    }
}

/// A record's parse, into an arena with `x` before it.
pub proof fn lemma_parse_shift(r: Seq<u8>, a: Seq<char>, x: Seq<char>)
    ensures
        starts(a, record_parse(r, a).2),
        bytes_of(record_parse(r, x + a).2).len() < 0x1_0000_0000 ==> record_parse(r, x + a)
            == (shifted_parse(record_parse(r, a).0, bytes_of(x).len() as int), record_parse(r, a).1, x + record_parse(r, a).2),
        bytes_of(record_parse(r, a).2).len() < 0x1_0000_0000 ==> name_within_parse(record_parse(r, a).0, record_parse(r, a).2),
{
    assert(a.subrange(0, a.len() as int) =~= a);
    if r.subrange(0, 4) != crate::ntfs::record::file_magic() || (crate::ntfs::le_at(r, 0x16, 2) as u16) & 1 == 0 {
    } else {
        match crate::ntfs::record::fixups(r) {
            (Err(e), fx) => {},
            (Ok(()), fx) => {
                let first = crate::ntfs::le_at(fx, 0x14, 2) as int;
                let used = crate::ntfs::le_at(fx, 0x18, 4) as int;
                let limit = if used < fx.len() { used } else { fx.len() as int };
                if first < 0x30 || first + 4 > limit {
                } else {
                    let init = initial_facts(fx, crate::ntfs::le_at(r, 0x16, 2) as u16);
                    assert(shifted(init, bytes_of(x).len() as int) == init);
                    lemma_walk_shift(fx, limit, first, init, a, x);
                }
            },
        }
    }
}

/// The parse's name, if any, lies within the arena.
pub open spec fn name_within_parse(w: Result<Option<RecordFacts>, ParseError>, arena: Seq<char>) -> bool {
    match w {
        Ok(Some(f)) => name_within(f, arena),
        _ => true,
    }
}

/// Record `k` of a buffer parsed into an arena of its own.
pub open spec fn own_parse(buf: Seq<u8>, rs: int, k: int) -> (Result<Option<RecordFacts>, ParseError>, Seq<u8>, Seq<char>) {
    record_parse(rec_of(buf, rs, k), Seq::empty())
}

/// The name text a parse's facts point at within the names `d` it decoded.
pub open spec fn own_name(w: Result<Option<RecordFacts>, ParseError>, d: Seq<char>) -> Seq<u8> {
    match w {
        Ok(Some(f)) => match f.name {
            Some(n) => {
                let b = bytes_of(d);
                if n.off + n.len <= b.len() && boundary(b, n.off as int) && boundary(b, n.off + n.len) {
                    b.subrange(n.off as int, n.off + n.len)
                } else {
                    Seq::empty()
                }
            },
            None => Seq::empty(),
        },
        _ => Seq::empty(),
    }
}

/// Every task arena of a buffer's first `n` records holds under 4 GiB of
/// text, so the byte offsets of its names fit their 32-bit field.
pub open spec fn arenas_fit(buf: Seq<u8>, rs: int, n: int) -> bool {
    forall|k: int| 0 <= k < n ==> #[trigger] bytes_of(arena_after(buf, rs, k)).len() < 0x1_0000_0000
}

/// Record `k` appends its own names to the arena it is parsed into, and
/// its facts are its own, the name moved past what was there.
proof fn lemma_record_in_arena(buf: Seq<u8>, rs: int, k: int)
    requires
        bytes_of(arena_after(buf, rs, k)).len() < 0x1_0000_0000,
    ensures
        arena_after(buf, rs, k) == arena_at(buf, rs, k) + own_parse(buf, rs, k).2,
        result_at(buf, rs, k) == shifted_parse(own_parse(buf, rs, k).0, bytes_of(arena_at(buf, rs, k)).len() as int),
        name_within_parse(own_parse(buf, rs, k).0, own_parse(buf, rs, k).2),
        bytes_of(arena_at(buf, rs, k)).len() + bytes_of(own_parse(buf, rs, k).2).len() < 0x1_0000_0000,
{
    let x = arena_at(buf, rs, k);
    let e = Seq::<char>::empty();
    assert(x + e =~= x);
    lemma_parse_shift(rec_of(buf, rs, k), e, x);
    lemma_encode_concat(x, own_parse(buf, rs, k).2);
}

/// Within a task, each record's arena starts with the last one's.
proof fn lemma_task_grows(buf: Seq<u8>, rs: int, k: int, e: int)
    requires
        0 <= k <= e,
        e / (TASK_RECORDS as int) == k / (TASK_RECORDS as int),
    ensures
        starts(arena_after(buf, rs, k), arena_after(buf, rs, e)),
    decreases e - k,
{
    let t = TASK_RECORDS as int;
    if e == k {
        assert(arena_after(buf, rs, k).subrange(0, arena_after(buf, rs, k).len() as int) =~= arena_after(buf, rs, k));
    } else {
        assert(e % t != 0 && (e - 1) / t == k / t) by (nonlinear_arith)
            requires
                0 <= k < e,
                e / t == k / t,
                t == 1024,
        ;
        lemma_task_grows(buf, rs, k, e - 1);
        assert(arena_at(buf, rs, e) == arena_after(buf, rs, e - 1));
        lemma_parse_shift(rec_of(buf, rs, e), arena_at(buf, rs, e), Seq::empty());
        lemma_starts_trans(arena_after(buf, rs, k), arena_after(buf, rs, e - 1), arena_after(buf, rs, e));
    }
}

/// A cut inside the middle part of `p + d + q` is a cut of `d`.
proof fn lemma_boundary_mid(p: Seq<char>, d: Seq<char>, q: Seq<char>, o: int)
    requires
        0 <= o <= bytes_of(d).len(),
    ensures
        bytes_of(p + d + q) == bytes_of(p) + bytes_of(d) + bytes_of(q),
        boundary(bytes_of(p + d + q), bytes_of(p).len() + o) == boundary(bytes_of(d), o),
{
    let bp = bytes_of(p);
    let bd = bytes_of(d);
    let bq = bytes_of(q);
    lemma_encode_concat(p, d);
    lemma_encode_concat(p + d, q);
    lemma_encode_concat(d, q);
    vstd::utf8::encode_utf8_valid_utf8(p);
    vstd::utf8::encode_utf8_valid_utf8(d);
    vstd::utf8::encode_utf8_valid_utf8(q);
    vstd::utf8::encode_utf8_valid_utf8(d + q);
    let all = bp + bd + bq;
    assert(all =~= bp + (bd + bq));
    if 0 < o < bd.len() {
        assert(all[bp.len() + o] == bd[o]);
    } else if o == 0 {
        lemma_boundary_shift(bp, bd + bq, 0);
    } else {
        vstd::utf8::encode_utf8_valid_utf8(p + d);
        lemma_boundary_shift(bp + bd, bq, 0);
    }
}

/// The slot a record fills, stripped of where its name lies.
pub open spec fn stripped(s: Slot) -> Slot {
    Slot { name_arena: 0, name_off: 0, ..s }
}

/// The slot record `k` of a buffer fills (or the patch it makes), with its
/// name in the arena of its task, agrees with the record parsed alone: in
/// every fact, and in the text its name points at.
proof fn lemma_named_slot(buf: Seq<u8>, rs: int, n: int, k: int, ars: Seq<Seq<char>>, ab: int)
    requires
        0 <= k < n,
        0 <= ab,
        arenas_fit(buf, rs, n),
        ab + k / (TASK_RECORDS as int) < ars.len(),
        ab + k / (TASK_RECORDS as int) <= u32::MAX,
        ars[ab + k / (TASK_RECORDS as int)] == task_arenas(buf, rs, n)[k / (TASK_RECORDS as int)],
    ensures
        result_at(buf, rs, k) is Ok <==> own_parse(buf, rs, k).0 is Ok,
        result_at(buf, rs, k) is Ok ==> (result_at(buf, rs, k)->Ok_0 is Some <==> own_parse(buf, rs, k).0->Ok_0 is Some),
        result_at(buf, rs, k) matches Ok(Some(f)) ==> ({
            let f0 = own_parse(buf, rs, k).0->Ok_0->Some_0;
            let idx = (ab + k / (TASK_RECORDS as int)) as u32;
            &&& f.base == f0.base
            &&& f.is_dir == f0.is_dir
            &&& f.logical == f0.logical
            &&& stripped(base_slot(f, idx)) == stripped(base_slot(f0, 0))
            &&& stripped(slot_of(f, idx)) == stripped(slot_of(f0, 0))
            &&& slot_name(ars, base_slot(f, idx)) == own_name(own_parse(buf, rs, k).0, own_parse(buf, rs, k).2)
            &&& slot_name(ars, slot_of(f, idx)) == own_name(own_parse(buf, rs, k).0, own_parse(buf, rs, k).2)
        }),
{
    let t = TASK_RECORDS as int;
    let i = k / t;
    assert(bytes_of(arena_after(buf, rs, k)).len() < 0x1_0000_0000);
    lemma_record_in_arena(buf, rs, k);
    let e = if (i + 1) * t < n { (i + 1) * t - 1 } else { n - 1 };
    assert(i * t <= k < (i + 1) * t) by (nonlinear_arith)
        requires
            i == k / t,
            t == 1024,
            k >= 0,
    ;
    assert(k <= e && e / t == i) by (nonlinear_arith)
        requires
            i * t <= k < (i + 1) * t,
            k < n,
            e == if (i + 1) * t < n { (i + 1) * t - 1 } else { n - 1 },
            t == 1024,
    ;
    assert(i < (n + t - 1) / t) by (nonlinear_arith)
        requires
            i * t <= k,
            k < n,
            t == 1024,
    ;
    assert(task_arenas(buf, rs, n)[i] == arena_after(buf, rs, e));
    lemma_task_grows(buf, rs, k, e);
    let full = arena_after(buf, rs, e);
    let pa = arena_at(buf, rs, k);
    let (w0, _, d) = own_parse(buf, rs, k);
    let q = full.subrange(arena_after(buf, rs, k).len() as int, full.len() as int);
    assert(full =~= pa + d + q);
    let x = bytes_of(pa).len() as int;
    let idx = (ab + i) as u32;
    assert(idx as int == ab + i);
    if w0 is Ok && w0->Ok_0 is Some {
        let f0 = w0->Ok_0->Some_0;
        let f = shifted(f0, x);
        assert(result_at(buf, rs, k) == Ok::<Option<RecordFacts>, ParseError>(Some(f)));
        match f0.name {
            Some(n0) => {
                let nf = f.name->Some_0;
                assert(nf.off == n0.off + x);
                lemma_boundary_mid(pa, d, q, n0.off as int);
                lemma_boundary_mid(pa, d, q, n0.off + n0.len);
                let bf = bytes_of(full);
                if n0.off + n0.len <= bytes_of(d).len() && boundary(bytes_of(d), n0.off as int) && boundary(bytes_of(d), n0.off + n0.len) {
                    assert(bf.subrange(nf.off as int, nf.off + nf.len) =~= bytes_of(d).subrange(n0.off as int, n0.off + n0.len));
                }
            },
            None => {},
        }
    }
}

/// Record `k` of two buffers joined is record `k` of the first, or record
/// `k - na` of the second.
proof fn lemma_rec_split(a: Seq<u8>, b: Seq<u8>, rs: int, k: int)
    requires
        rs > 0,
        a.len() as int % rs == 0,
        b.len() as int % rs == 0,
        0 <= k < (a.len() + b.len()) as int / rs,
    ensures
        (a.len() + b.len()) as int / rs == a.len() as int / rs + b.len() as int / rs,
        k < a.len() as int / rs ==> rec_of(a + b, rs, k) == rec_of(a, rs, k),
        k >= a.len() as int / rs ==> rec_of(a + b, rs, k) == rec_of(b, rs, k - a.len() as int / rs),
{
    let na = a.len() as int / rs;
    let nb = b.len() as int / rs;
    assert(na * rs == a.len() && nb * rs == b.len()) by (nonlinear_arith)
        requires
            na == a.len() as int / rs,
            nb == b.len() as int / rs,
            a.len() as int % rs == 0,
            b.len() as int % rs == 0,
            rs > 0,
    ;
    assert((a.len() + b.len()) as int / rs == na + nb) by (nonlinear_arith)
        requires
            na * rs == a.len(),
            nb * rs == b.len(),
            rs > 0,
    ;
    assert(k * rs + rs == (k + 1) * rs && 0 <= k * rs && (k + 1) * rs <= (na + nb) * rs) by (nonlinear_arith)
        requires
            0 <= k < na + nb,
            rs > 0,
    ;
    if k < na {
        assert((k + 1) * rs <= na * rs) by (nonlinear_arith)
            requires
                k < na,
                rs > 0,
        ;
        assert(rec_of(a + b, rs, k) =~= rec_of(a, rs, k));
    } else {
        assert(na * rs <= k * rs && (k - na) * rs == k * rs - na * rs && (k - na + 1) * rs == (k + 1) * rs - na * rs) by (nonlinear_arith)
            requires
                na <= k,
                rs > 0,
        ;
        assert((na + nb) * rs == na * rs + nb * rs) by (nonlinear_arith);
        assert(rec_of(a + b, rs, k) =~= rec_of(b, rs, k - na));
    }
}

/// Within the first buffer, the joined buffer's arenas are the first's.
proof fn lemma_prefix_arenas(a: Seq<u8>, b: Seq<u8>, rs: int, k: int)
    requires
        rs > 0,
        a.len() as int % rs == 0,
        b.len() as int % rs == 0,
        0 <= k < a.len() as int / rs,
    ensures
        arena_at(a + b, rs, k) == arena_at(a, rs, k),
        arena_after(a + b, rs, k) == arena_after(a, rs, k),
    decreases k,
{
    assert(a.len() as int / rs <= (a.len() + b.len()) as int / rs) by (nonlinear_arith)
        requires
            rs > 0,
    ;
    lemma_rec_split(a, b, rs, k);
    if k > 0 && k % (TASK_RECORDS as int) != 0 {
        lemma_prefix_arenas(a, b, rs, k - 1);
    }
}

/// A slot that names no arena beyond `a0`, or points at no text.
pub open spec fn placed(s: Slot, a0: Seq<Seq<char>>) -> bool {
    s.name_len == 0 || s.name_arena < a0.len()
}

proof fn lemma_placed_name(s: Slot, a0: Seq<Seq<char>>, x: Seq<Seq<char>>, y: Seq<Seq<char>>)
    requires
        placed(s, a0),
    ensures
        slot_name(a0 + x, s) == slot_name(a0 + y, s),
{
    if s.name_arena < a0.len() {
        assert((a0 + x)[s.name_arena as int] == (a0 + y)[s.name_arena as int]);
    } else {
        let a = s.name_off as int;
        if s.name_arena < (a0 + x).len() && a <= bytes_of((a0 + x)[s.name_arena as int]).len() {
            assert(bytes_of((a0 + x)[s.name_arena as int]).subrange(a, a) =~= Seq::<u8>::empty());
        }
        if s.name_arena < (a0 + y).len() && a <= bytes_of((a0 + y)[s.name_arena as int]).len() {
            assert(bytes_of((a0 + y)[s.name_arena as int]).subrange(a, a) =~= Seq::<u8>::empty());
        }
    }
}

/// Two slots, each read against its own arenas, agree in every fact and
/// in the name text they point at.
pub open spec fn same_slot(s1: Slot, ar1: Seq<Seq<char>>, s2: Slot, ar2: Seq<Seq<char>>) -> bool {
    stripped(s1) == stripped(s2) && slot_name(ar1, s1) == slot_name(ar2, s2)
}

/// What slot `i` holds after `k` records of a buffer: the base record that
/// filled it, or what it held.
pub open spec fn filled(buf: Seq<u8>, rs: int, ab: int, k: int, old: Slot) -> Slot {
    match result_at(buf, rs, k) {
        Ok(Some(f)) => if f.base == 0 {
            base_slot(f, (ab + k / (TASK_RECORDS as int)) as u32)
        } else {
            old
        },
        _ => old,
    }
}

proof fn lemma_slots_after_at(old: Seq<Slot>, buf: Seq<u8>, rs: int, first: int, ab: int, k: int, i: int)
    requires
        0 <= first,
        0 <= k,
        first + k <= old.len(),
    ensures
        slots_after(old, buf, rs, first, ab, k).len() == old.len(),
        0 <= i < old.len() ==> slots_after(old, buf, rs, first, ab, k)[i] == if first <= i < first + k {
            filled(buf, rs, ab, i - first, old[i])
        } else {
            old[i]
        },
    decreases k,
{
    if k > 0 {
        lemma_slots_after_at(old, buf, rs, first, ab, k - 1, i);
    }
}

/// Slot `i` of the arenas' list holds task `i` of a buffer, from `ab` on.
pub open spec fn holds_tasks(ars: Seq<Seq<char>>, ab: int, buf: Seq<u8>, rs: int, n: int) -> bool {
    &&& 0 <= ab
    &&& ab + task_arenas(buf, rs, n).len() <= ars.len()
    &&& forall|i: int| 0 <= i < task_arenas(buf, rs, n).len() ==> ars[ab + i] == #[trigger] task_arenas(buf, rs, n)[i]
}

proof fn lemma_task_index(k: int, n: int)
    requires
        0 <= k < n,
    ensures
        0 <= k / (TASK_RECORDS as int) <= k,
        k / (TASK_RECORDS as int) < (n + TASK_RECORDS as int - 1) / (TASK_RECORDS as int),
{
    let t = TASK_RECORDS as int;
    let i = k / t;
    assert(0 <= i * t <= k && i <= k) by (nonlinear_arith)
        requires
            i == k / t,
            t == 1024,
            k >= 0,
    ;
    assert(i < (n + t - 1) / t) by (nonlinear_arith)
        requires
            i * t <= k,
            k < n,
            t == 1024,
    ;
}

/// The patches a buffer's first `k` records make, each as its base record,
/// its facts and the text of its name.
pub open spec fn own_patches(buf: Seq<u8>, rs: int, k: int) -> Seq<(u64, Slot, Seq<u8>)>
    decreases k,
{
    if k <= 0 {
        Seq::empty()
    } else {
        let prev = own_patches(buf, rs, k - 1);
        let (w, _, d) = own_parse(buf, rs, k - 1);
        match w {
            Ok(Some(f)) => if f.base != 0 {
                prev.push((f.base, stripped(slot_of(f, 0)), own_name(w, d)))
            } else {
                prev
            },
            _ => prev,
        }
    }
}

/// Patches read against arenas: their base record, facts and name text.
pub open spec fn patch_view(ps: Seq<(u64, Slot)>, ars: Seq<Seq<char>>) -> Seq<(u64, Slot, Seq<u8>)> {
    Seq::new(ps.len(), |j: int| (ps[j].0, stripped(ps[j].1), slot_name(ars, ps[j].1)))
}

/// Torn records among a buffer's first `k`.
pub open spec fn own_torn(buf: Seq<u8>, rs: int, k: int) -> nat
    decreases k,
{
    if k <= 0 {
        0
    } else {
        own_torn(buf, rs, k - 1) + (if own_parse(buf, rs, k - 1).0 is Err { 1nat } else { 0nat })
    }
}

proof fn lemma_own_patches(buf: Seq<u8>, rs: int, n: int, k: int, ars: Seq<Seq<char>>, ab: int)
    requires
        0 <= k <= n,
        arenas_fit(buf, rs, n),
        holds_tasks(ars, ab, buf, rs, n),
        ab + n <= u32::MAX,
    ensures
        patch_view(patches_after(buf, rs, ab, k), ars) == own_patches(buf, rs, k),
        torn_after(buf, rs, k) == own_torn(buf, rs, k),
    decreases k,
{
    if k > 0 {
        lemma_own_patches(buf, rs, n, k - 1, ars, ab);
        lemma_task_index(k - 1, n);
        let i = (k - 1) / (TASK_RECORDS as int);
        assert(ars[ab + i] == task_arenas(buf, rs, n)[i]);
        lemma_named_slot(buf, rs, n, k - 1, ars, ab);
        let prev = patches_after(buf, rs, ab, k - 1);
        let cur = patches_after(buf, rs, ab, k);
        if cur.len() > prev.len() {
            assert(cur == prev.push(cur.last()));
            assert(patch_view(cur, ars) =~= patch_view(prev, ars).push(patch_view(cur, ars).last()));
        } else {
            assert(cur == prev);
        }
    }
}

/// The joined buffer's own parses are the two buffers' own parses.
proof fn lemma_own_split(a: Seq<u8>, b: Seq<u8>, rs: int, k: int)
    requires
        rs > 0,
        a.len() as int % rs == 0,
        b.len() as int % rs == 0,
        0 <= k <= (a.len() + b.len()) as int / rs,
    ensures
        k <= a.len() as int / rs ==> own_patches(a + b, rs, k) == own_patches(a, rs, k) && own_torn(a + b, rs, k) == own_torn(a, rs, k),
        k >= a.len() as int / rs ==> own_patches(a + b, rs, k) == own_patches(a, rs, a.len() as int / rs) + own_patches(b, rs, k - a.len() as int / rs)
            && own_torn(a + b, rs, k) == own_torn(a, rs, a.len() as int / rs) + own_torn(b, rs, k - a.len() as int / rs),
    decreases k,
{
    let na = a.len() as int / rs;
    if k > 0 {
        lemma_own_split(a, b, rs, k - 1);
        lemma_rec_split(a, b, rs, k - 1);
        if k - 1 < na {
            assert(own_parse(a + b, rs, k - 1) == own_parse(a, rs, k - 1));
        } else {
            assert(own_parse(a + b, rs, k - 1) == own_parse(b, rs, k - 1 - na));
            let pa = own_patches(a, rs, na);
            let pb = own_patches(b, rs, k - 1 - na);
            if k - 1 == na {
                assert(own_patches(b, rs, 0) =~= Seq::<(u64, Slot, Seq<u8>)>::empty());
                assert(pa + pb =~= pa);
            }
            let e = own_patches(b, rs, k - na);
            if e.len() > pb.len() {
                assert(e == pb.push(e.last()));
                assert(pa + e =~= (pa + pb).push(e.last()));
            }
        }
    } else {
        assert(own_patches(b, rs, 0) =~= Seq::<(u64, Slot, Seq<u8>)>::empty());
        assert(own_patches(a, rs, 0) + own_patches(b, rs, 0) =~= own_patches(a, rs, 0));
    }
}

proof fn lemma_merged_same(t1: Slot, q1: Slot, ar1: Seq<Seq<char>>, t2: Slot, q2: Slot, ar2: Seq<Seq<char>>)
    requires
        same_slot(t1, ar1, t2, ar2),
        same_slot(q1, ar1, q2, ar2),
    ensures
        same_slot(merged(t1, q1), ar1, merged(t2, q2), ar2),
{
    assert(t1.state == t2.state && t1.rank == t2.rank && t1.mtime == t2.mtime && t1.name_len == t2.name_len);
    assert(q1.state == q2.state && q1.rank == q2.rank && q1.mtime == q2.mtime && q1.name_len == q2.name_len);
    let m1 = merged(t1, q1);
    let m2 = merged(t2, q2);
    if q1.rank < t1.rank {
        assert(slot_name(ar1, m1) == slot_name(ar1, q1));
        assert(slot_name(ar2, m2) == slot_name(ar2, q2));
    } else {
        assert(slot_name(ar1, m1) == slot_name(ar1, t1));
        assert(slot_name(ar2, m2) == slot_name(ar2, t2));
    }
}

proof fn lemma_apply_same(r1: Seq<Slot>, ar1: Seq<Seq<char>>, p1: Seq<(u64, Slot)>, r2: Seq<Slot>, ar2: Seq<Seq<char>>, p2: Seq<(u64, Slot)>, i: int)
    requires
        r1.len() == r2.len(),
        forall|j: int| 0 <= j < r1.len() ==> same_slot(#[trigger] r1[j], ar1, r2[j], ar2),
        patch_view(p1, ar1) == patch_view(p2, ar2),
        0 <= i <= p1.len(),
    ensures
        apply_patches(r1, p1, i).0.len() == r1.len(),
        apply_patches(r2, p2, i).0.len() == r1.len(),
        apply_patches(r1, p1, i).1 == apply_patches(r2, p2, i).1,
        forall|j: int| 0 <= j < r1.len() ==> same_slot(#[trigger] apply_patches(r1, p1, i).0[j], ar1, apply_patches(r2, p2, i).0[j], ar2),
    decreases i,
{
    if i > 0 {
        lemma_apply_same(r1, ar1, p1, r2, ar2, p2, i - 1);
        let (ra, da) = apply_patches(r1, p1, i - 1);
        let (rb, db) = apply_patches(r2, p2, i - 1);
        let (base1, q1) = p1[i - 1];
        let (base2, q2) = p2[i - 1];
        assert(patch_view(p1, ar1).len() == p1.len() && patch_view(p2, ar2).len() == p2.len());
        let v1 = patch_view(p1, ar1)[i - 1];
        let v2 = patch_view(p2, ar2)[i - 1];
        assert(v1 == v2);
        assert(v1 == (base1, stripped(q1), slot_name(ar1, q1)));
        assert(v2 == (base2, stripped(q2), slot_name(ar2, q2)));
        assert(base1 == base2 && same_slot(q1, ar1, q2, ar2));
        if base1 < ra.len() {
            let t1 = ra[base1 as int];
            let t2 = rb[base1 as int];
            assert(same_slot(t1, ar1, t2, ar2));
            assert(t1.state == t2.state);
            if t1.spec_is_base() {
                lemma_merged_same(t1, q1, ar1, t2, q2, ar2);
                let u1 = ra.update(base1 as int, merged(t1, q1));
                let u2 = rb.update(base1 as int, merged(t2, q2));
                assert forall|j: int| 0 <= j < r1.len() implies same_slot(#[trigger] u1[j], ar1, u2[j], ar2) by {
                    if j != base1 {
                        assert(same_slot(ra[j], ar1, rb[j], ar2));
                    }
                }
            }
        }
    }
}

/// Consuming two adjacent buffers one after the other and then finishing
/// fills the table that consuming them joined fills. Stated over the
/// contracts of `Sweep::consume` and `Sweep::finish`, from a sweep with
/// slots `r0`, arenas `a0` and patches `p0`: every slot
/// of the two tables holds the same facts and points at the same name text
/// (which arena holds that text, and where, may differ), as many patches
/// are dropped, and as many records are torn.
///
/// Taken as given: the earlier slots and patches point into `a0` or at no
/// text, and no task's arena grows past 4 GiB of names (the byte offsets
/// of names are 32-bit).
pub proof fn lemma_split_consume(
    r0: Seq<Slot>,
    a0: Seq<Seq<char>>,
    p0: Seq<(u64, Slot)>,
    rs: int,
    first: int,
    a: Seq<u8>,
    b: Seq<u8>,
)
    requires
        rs > 0,
        a.len() as int % rs == 0,
        b.len() as int % rs == 0,
        0 <= first,
        first + (a + b).len() as int / rs <= r0.len(),
        a0.len() + (a + b).len() as int / rs <= u32::MAX,
        forall|i: int| 0 <= i < r0.len() ==> placed(#[trigger] r0[i], a0),
        forall|j: int| 0 <= j < p0.len() ==> placed(#[trigger] p0[j].1, a0),
        arenas_fit(a + b, rs, (a + b).len() as int / rs),
        arenas_fit(b, rs, b.len() as int / rs),
    ensures
        ({
            let na = a.len() as int / rs;
            let nb = b.len() as int / rs;
            let n = (a + b).len() as int / rs;
            let ab = a0.len() as int;
            let ta = task_arenas(a, rs, na);
            // joined
            let s1 = slots_after(r0, a + b, rs, first, ab, n);
            let p1 = p0 + patches_after(a + b, rs, ab, n);
            let ar1 = a0 + task_arenas(a + b, rs, n);
            let f1 = apply_patches(s1, p1, p1.len() as int);
            // one after the other
            let s2 = slots_after(slots_after(r0, a, rs, first, ab, na), b, rs, first + na, ab + ta.len(), nb);
            let p2 = p0 + patches_after(a, rs, ab, na) + patches_after(b, rs, ab + ta.len(), nb);
            let ar2 = a0 + ta + task_arenas(b, rs, nb);
            let f2 = apply_patches(s2, p2, p2.len() as int);
            &&& n == na + nb
            &&& f1.0.len() == r0.len()
            &&& f2.0.len() == r0.len()
            &&& forall|i: int| 0 <= i < r0.len() ==> same_slot(#[trigger] f1.0[i], ar1, f2.0[i], ar2)
            &&& f1.1 == f2.1
            &&& torn_after(a + b, rs, n) == torn_after(a, rs, na) + torn_after(b, rs, nb)
        }),
{
    let c = a + b;
    let na = a.len() as int / rs;
    let nb = b.len() as int / rs;
    let n = c.len() as int / rs;
    let t = TASK_RECORDS as int;
    assert(na * rs == a.len() && nb * rs == b.len()) by (nonlinear_arith)
        requires
            na == a.len() as int / rs,
            nb == b.len() as int / rs,
            a.len() as int % rs == 0,
            b.len() as int % rs == 0,
            rs > 0,
    ;
    assert(n == na + nb) by (nonlinear_arith)
        requires
            na * rs == a.len(),
            nb * rs == b.len(),
            n == (a.len() + b.len()) as int / rs,
            rs > 0,
    ;
    let ab = a0.len() as int;
    let tc = task_arenas(c, rs, n);
    let ta = task_arenas(a, rs, na);
    let tb = task_arenas(b, rs, nb);
    assert(ta.len() <= na) by (nonlinear_arith)
        requires
            ta.len() == (na + t - 1) / t,
            na >= 0,
            t == 1024,
    ;
    let ar1 = a0 + tc;
    let ar2 = a0 + ta + tb;
    assert forall|k: int| 0 <= k < na implies #[trigger] bytes_of(arena_after(a, rs, k)).len() < 0x1_0000_0000 by {
        lemma_prefix_arenas(a, b, rs, k);
    }
    assert(holds_tasks(ar1, ab, c, rs, n));
    assert(holds_tasks(ar2, ab, a, rs, na));
    assert(holds_tasks(ar2, ab + ta.len(), b, rs, nb));
    assert(ar2 =~= a0 + (ta + tb));
    // the slots
    let s1 = slots_after(r0, c, rs, first, ab, n);
    let s2a = slots_after(r0, a, rs, first, ab, na);
    let s2 = slots_after(s2a, b, rs, first + na, ab + ta.len(), nb);
    lemma_slots_after_at(r0, c, rs, first, ab, n, 0);
    lemma_slots_after_at(r0, a, rs, first, ab, na, 0);
    lemma_slots_after_at(s2a, b, rs, first + na, ab + ta.len(), nb, 0);
    assert forall|i: int| 0 <= i < r0.len() implies same_slot(#[trigger] s1[i], ar1, s2[i], ar2) by {
        lemma_slots_after_at(r0, c, rs, first, ab, n, i);
        lemma_slots_after_at(r0, a, rs, first, ab, na, i);
        lemma_slots_after_at(s2a, b, rs, first + na, ab + ta.len(), nb, i);
        lemma_placed_name(r0[i], a0, tc, ta + tb);
        if first <= i < first + n {
            let k = i - first;
            lemma_task_index(k, n);
            lemma_named_slot(c, rs, n, k, ar1, ab);
            lemma_rec_split(a, b, rs, k);
            if k < na {
                lemma_task_index(k, na);
                lemma_named_slot(a, rs, na, k, ar2, ab);
                assert(own_parse(c, rs, k) == own_parse(a, rs, k));
            } else {
                lemma_task_index(k - na, nb);
                lemma_named_slot(b, rs, nb, k - na, ar2, ab + ta.len());
                assert(own_parse(c, rs, k) == own_parse(b, rs, k - na));
            }
        }
    }
    // the patches
    let pc = patches_after(c, rs, ab, n);
    let pa = patches_after(a, rs, ab, na);
    let pb = patches_after(b, rs, ab + ta.len(), nb);
    let p1 = p0 + pc;
    let p2 = p0 + pa + pb;
    lemma_own_patches(c, rs, n, n, ar1, ab);
    lemma_own_patches(a, rs, na, na, ar2, ab);
    lemma_own_patches(b, rs, nb, nb, ar2, ab + ta.len());
    lemma_own_split(a, b, rs, n);
    assert forall|j: int| 0 <= j < p0.len() implies #[trigger] slot_name(ar1, p0[j].1) == slot_name(ar2, p0[j].1) by {
        lemma_placed_name(p0[j].1, a0, tc, ta + tb);
    }
    assert(patch_view(p1, ar1) =~= patch_view(p0, ar1) + patch_view(pc, ar1));
    assert(patch_view(p2, ar2) =~= patch_view(p0, ar2) + patch_view(pa, ar2) + patch_view(pb, ar2));
    assert(patch_view(p0, ar1) =~= patch_view(p0, ar2));
    assert(patch_view(p1, ar1) == patch_view(p2, ar2));
    lemma_apply_same(s1, ar1, p1, s2, ar2, p2, p1.len() as int);
}

} // verus!
