//! The deterministic generators an A/B harness feeds the same inputs from:
//! a splitmix64 stream, a 32-bit integer hash, Bend string literals, and a
//! seeded directory tree.

use vstd::prelude::*;
use vstd::string::StringSliceAdditionalSpecFns;
use vstd::utf8::encode_utf8_valid_utf8;

use crate::category::{categorize, extension_key, key_of, palette_slot, spec_categorize};
use crate::entry::{EntryBatch, EntryFlags, FileEntry, kept_len, lemma_name_kept, name_bytes};
use crate::text::{byte_len, bytes_of, chars_of, decimal, push_char, push_decimal, push_str};
use crate::tree::{Node, Tree, TreeBuilder, batch_allocated, batch_name_bytes, batch_size, holds_id, new_children, slots_after};

verus! {

pub open spec fn wrap64(x: int) -> u64 {
    (x % 0x1_0000_0000_0000_0000) as u64
}

pub open spec fn wrap32(x: int) -> u32 {
    (x % 0x1_0000_0000) as u32
}

/// The state after one step of splitmix64.
pub open spec fn step_state(s: u64) -> u64 {
    wrap64(s + 0x9E37_79B9_7F4A_7C15)
}

/// splitmix64's output for the stepped state `z`.
pub open spec fn mix64(z: u64) -> u64 {
    let a = wrap64((z ^ (z >> 30u64)) * 0xBF58_476D_1CE4_E5B9);
    let b = wrap64((a ^ (a >> 27u64)) * 0x94D0_49BB_1331_11EB);
    b ^ (b >> 31u64)
}

/// splitmix64: deterministic, dependency-free.
pub struct Rng(pub u64);

impl Rng {
    /// Steps the state and returns its mix.
    pub fn next(&mut self) -> (r: u64)
        ensures
            final(self).0 == step_state(old(self).0),
            r == mix64(final(self).0),
    {
        self.0 = self.0.wrapping_add(0x9E37_79B9_7F4A_7C15);
        let mut z = self.0;
        z = (z ^ (z >> 30)).wrapping_mul(0xBF58_476D_1CE4_E5B9);
        z = (z ^ (z >> 27)).wrapping_mul(0x94D0_49BB_1331_11EB);
        z ^ (z >> 31)
    }

    /// The next output modulo `n`.
    pub fn below(&mut self, n: u64) -> (r: u64)
        requires
            n > 0,
        ensures
            final(self).0 == step_state(old(self).0),
            r == mix64(final(self).0) % n,
    {
        self.next() % n
    }

    /// True with `pct` percent probability: the next output modulo 100 is
    /// below `pct`.
    pub fn chance(&mut self, pct: u64) -> (r: bool)
        ensures
            final(self).0 == step_state(old(self).0),
            r == (mix64(final(self).0) % 100 < pct),
    {
        self.below(100) < pct
    }

    /// A byte biased toward the edges that break integer code: 0x00, 0xFF,
    /// 0x7F, 0x80 and 0x01 one eighth of the time each, else the low byte of
    /// the following output.
    pub fn edge_byte(&mut self) -> (r: u8)
        ensures
            ({
                let s1 = step_state(old(self).0);
                let k = mix64(s1) % 8;
                if k == 0 {
                    r == 0x00 && final(self).0 == s1
                } else if k == 1 {
                    r == 0xFF && final(self).0 == s1
                } else if k == 2 {
                    r == 0x7F && final(self).0 == s1
                } else if k == 3 {
                    r == 0x80 && final(self).0 == s1
                } else if k == 4 {
                    r == 0x01 && final(self).0 == s1
                } else {
                    final(self).0 == step_state(s1) && r == mix64(step_state(s1)) % 256
                }
            }),
    {
        let k = self.below(8);
        if k == 0 {
            0x00
        } else if k == 1 {
            0xFF
        } else if k == 2 {
            0x7F
        } else if k == 3 {
            0x80
        } else if k == 4 {
            0x01
        } else {
            let x = self.next();
            (x % 256) as u8
        }
    }
}

/// A 32-bit integer hash (two xorshift-multiply rounds).
#[verifier::opaque]
pub open spec fn spec_h(x: u32) -> u32 {
    let a = x ^ (x >> 16u32);
    let b = wrap32(a * 0x7feb_352d);
    let c = b ^ (b >> 15u32);
    let d = wrap32(c * 0x846c_a68b);
    d ^ (d >> 16u32)
}

pub fn h(x: u32) -> (r: u32)
    ensures
        r == spec_h(x),
{
    proof {
        reveal(spec_h);
    }
    let mut x = x;
    x ^= x >> 16;
    x = x.wrapping_mul(0x7feb_352d);
    x ^= x >> 15;
    x = x.wrapping_mul(0x846c_a68b);
    x ^= x >> 16;
    x
}

/// `h` undone: each step of `h` reversed, last step first.
pub open spec fn spec_h_inverse(y: u32) -> u32 {
    let d = y ^ (y >> 16u32);
    let c = wrap32(d * 0x4302_1123);
    let b = c ^ (c >> 15u32) ^ (c >> 30u32);
    let a = wrap32(b * 0x1d69_e2a5);
    a ^ (a >> 16u32)
}

proof fn lemma_xs16(x: u32)
    ensures
        (x ^ (x >> 16u32)) ^ ((x ^ (x >> 16u32)) >> 16u32) == x,
{
    assert((x ^ (x >> 16u32)) ^ ((x ^ (x >> 16u32)) >> 16u32) == x) by (bit_vector);
}

proof fn lemma_xs15(x: u32)
    ensures
        ({
            let y = x ^ (x >> 15u32);
            y ^ (y >> 15u32) ^ (y >> 30u32) == x
        }),
        ({
            let y = x ^ (x >> 15u32) ^ (x >> 30u32);
            y ^ (y >> 15u32) == x
        }),
{
    assert(((x ^ (x >> 15u32)) ^ ((x ^ (x >> 15u32)) >> 15u32) ^ ((x ^ (x >> 15u32)) >> 30u32)) == x) by (bit_vector);
    assert(((x ^ (x >> 15u32) ^ (x >> 30u32)) ^ ((x ^ (x >> 15u32) ^ (x >> 30u32)) >> 15u32)) == x) by (bit_vector);
}

proof fn lemma_mul_pair(x: u32)
    ensures
        wrap32(wrap32(x * 0x7feb_352d) * 0x1d69_e2a5) == x,
        wrap32(wrap32(x * 0x1d69_e2a5) * 0x7feb_352d) == x,
        wrap32(wrap32(x * 0x846c_a68b) * 0x4302_1123) == x,
        wrap32(wrap32(x * 0x4302_1123) * 0x846c_a68b) == x,
{
    assert((((x * 0x7feb_352d) % 0x1_0000_0000) * 0x1d69_e2a5) % 0x1_0000_0000 == x) by (bit_vector);
    assert((((x * 0x1d69_e2a5) % 0x1_0000_0000) * 0x7feb_352d) % 0x1_0000_0000 == x) by (bit_vector);
    assert((((x * 0x846c_a68b) % 0x1_0000_0000) * 0x4302_1123) % 0x1_0000_0000 == x) by (bit_vector);
    assert((((x * 0x4302_1123) % 0x1_0000_0000) * 0x846c_a68b) % 0x1_0000_0000 == x) by (bit_vector);
}

/// `h` is a bijection on `u32`: `spec_h_inverse` undoes it and is undone
/// by it, so no two values hash alike. It keeps 0 at 0.
pub proof fn lemma_h_bijective(x: u32, y: u32)
    ensures
        spec_h_inverse(spec_h(x)) == x,
        spec_h(spec_h_inverse(y)) == y,
        spec_h(x) == spec_h(y) ==> x == y,
        spec_h(0) == 0,
{
    reveal(spec_h);
    let a = x ^ (x >> 16u32);
    let b = wrap32(a * 0x7feb_352d);
    let c = b ^ (b >> 15u32);
    let d = wrap32(c * 0x846c_a68b);
    lemma_xs16(d);
    lemma_mul_pair(c);
    lemma_xs15(b);
    lemma_mul_pair(a);
    lemma_xs16(x);
    let d2 = y ^ (y >> 16u32);
    let c2 = wrap32(d2 * 0x4302_1123);
    let b2 = c2 ^ (c2 >> 15u32) ^ (c2 >> 30u32);
    let a2 = wrap32(b2 * 0x1d69_e2a5);
    lemma_xs16(a2);
    lemma_mul_pair(b2);
    lemma_xs15(c2);
    lemma_mul_pair(d2);
    lemma_xs16(y);
    assert(spec_h_inverse(spec_h(x)) == x);
    assert(spec_h_inverse(spec_h(y)) == y) by {
        let a3 = y ^ (y >> 16u32);
        let b3 = wrap32(a3 * 0x7feb_352d);
        let c3 = b3 ^ (b3 >> 15u32);
        let d3 = wrap32(c3 * 0x846c_a68b);
        lemma_xs16(d3);
        lemma_mul_pair(c3);
        lemma_xs15(b3);
        lemma_mul_pair(a3);
    }
    assert((0u32 >> 16u32) == 0u32 && (0u32 ^ 0u32) == 0u32 && (0u32 >> 15u32) == 0u32) by (bit_vector);
}

/// The lowercase hex digits of `n`, most significant first.
pub open spec fn hex(n: nat) -> Seq<char>
    decreases n,
{
    if n < 16 {
        seq![crate::export::hex_char(n)]
    } else {
        hex(n / 16).push(crate::export::hex_char(n % 16))
    }
}

/// One character inside a Bend string literal: quote and backslash
/// escaped, printable ASCII as is, anything else as `\u{hex}`.
pub open spec fn bend_char(c: char) -> Seq<char> {
    if c == '"' {
        seq!['\\', '"']
    } else if c == '\\' {
        seq!['\\', '\\']
    } else if ' ' <= c <= '~' {
        seq![c]
    } else {
        seq!['\\', 'u', '{'] + hex((c as u32) as nat) + seq!['}']
    }
}

pub open spec fn bend_chars(s: Seq<char>) -> Seq<char>
    decreases s.len(),
{
    if s.len() == 0 {
        Seq::empty()
    } else {
        bend_chars(s.drop_last()) + bend_char(s.last())
    }
}

fn push_hex(out: &mut String, n: u32)
    ensures
        final(out)@ == old(out)@ + hex(n as nat),
    decreases n,
{
    if n < 16 {
        push_char(out, hex_digit(n));
    } else {
        push_hex(out, n / 16);
        push_char(out, hex_digit(n % 16));
    }
}

fn hex_digit(d: u32) -> (c: char)
    requires
        d < 16,
    ensures
        c == crate::export::hex_char(d as nat),
{
    if d < 10 {
        let v = chars_of(crate::text::digit_str(d as u64));
        v[0]
    } else if d == 10 {
        'a'
    } else if d == 11 {
        'b'
    } else if d == 12 {
        'c'
    } else if d == 13 {
        'd'
    } else if d == 14 {
        'e'
    } else {
        'f'
    }
}

/// `s` as a Bend string literal.
pub fn bend_str(s: &str) -> (r: String)
    ensures
        r@ == seq!['"'] + bend_chars(s@) + seq!['"'],
{
    let v = chars_of(s);
    let mut o = String::new();
    push_char(&mut o, '"');
    let ghost start = o@;
    let mut k: usize = 0;
    while k < v.len()
        invariant
            k <= v@.len(),
            o@ == start + bend_chars(v@.subrange(0, k as int)),
        decreases v@.len() - k,
    {
        let c = v[k];
        let ghost before = o@;
        if c == '"' {
            push_char(&mut o, '\\');
            push_char(&mut o, '"');
        } else if c == '\\' {
            push_char(&mut o, '\\');
            push_char(&mut o, '\\');
        } else if ' ' <= c && c <= '~' {
            push_char(&mut o, c);
        } else {
            proof {
                reveal_strlit("\\u{");
            }
            push_str(&mut o, "\\u{");
            let ghost mid = o@;
            assert(mid == before + seq!['\\', 'u', '{']);
            let cu = c as u32;
            push_hex(&mut o, cu);
            push_char(&mut o, '}');
            assert(o@ =~= mid + hex(cu as nat) + seq!['}']);
        }
        proof {
            assert(o@ =~= before + bend_char(c));
            let p = v@.subrange(0, k + 1);
            assert(p.drop_last() =~= v@.subrange(0, k as int));
        }
        k = k + 1;
    }
    proof {
        assert(v@.subrange(0, v@.len() as int) =~= v@);
    }
    push_char(&mut o, '"');
    o
}

/// The file name stems a seeded tree draws from, by index.
pub open spec fn stem_table(i: u32) -> Seq<char> {
    if i == 0 { "report"@ }
    else if i == 1 { "IMG_"@ }
    else if i == 2 { "photo"@ }
    else if i == 3 { "Draft-REPORT"@ }
    else if i == 4 { "notes"@ }
    else if i == 5 { "data"@ }
    else if i == 6 { "kernel32"@ }
    else if i == 7 { "setup"@ }
    else if i == 8 { "movie"@ }
    else if i == 9 { "backup"@ }
    else if i == 10 { "résumé"@ }
    else if i == 11 { "日本"@ }
    else if i == 12 { "a b"@ }
    else { "x"@ }
}

/// The extensions a seeded tree draws from, by index (one of them empty).
pub open spec fn ext_table(i: u32) -> Seq<char> {
    if i == 0 { "pdf"@ }
    else if i == 1 { "PDF"@ }
    else if i == 2 { "mkv"@ }
    else if i == 3 { "mp4"@ }
    else if i == 4 { "jpg"@ }
    else if i == 5 { "JPEG"@ }
    else if i == 6 { "txt"@ }
    else if i == 7 { "rs"@ }
    else if i == 8 { "dll"@ }
    else if i == 9 { "sys"@ }
    else if i == 10 { "exe"@ }
    else if i == 11 { "bin"@ }
    else if i == 12 { "log"@ }
    else if i == 13 { ""@ }
    else if i == 14 { "gz"@ }
    else if i == 15 { "weird1234"@ }
    else if i == 16 { "Ω"@ }
    else { "tar"@ }
}

/// The file name stems a seeded tree draws from.
pub fn base_name(i: u32) -> (r: &'static str)
    requires
        i < 14,
    ensures
        r@ == stem_table(i),
{
    match i {
        0 => "report",
        1 => "IMG_",
        2 => "photo",
        3 => "Draft-REPORT",
        4 => "notes",
        5 => "data",
        6 => "kernel32",
        7 => "setup",
        8 => "movie",
        9 => "backup",
        10 => "résumé",
        11 => "日本",
        12 => "a b",
        _ => "x",
    }
}

/// The extensions a seeded tree draws from (one of them empty).
pub fn ext_name(i: u32) -> (r: &'static str)
    requires
        i < 18,
    ensures
        r@ == ext_table(i),
{
    match i {
        0 => "pdf",
        1 => "PDF",
        2 => "mkv",
        3 => "mp4",
        4 => "jpg",
        5 => "JPEG",
        6 => "txt",
        7 => "rs",
        8 => "dll",
        9 => "sys",
        10 => "exe",
        11 => "bin",
        12 => "log",
        13 => "",
        14 => "gz",
        15 => "weird1234",
        16 => "Ω",
        _ => "tar",
    }
}

proof fn lemma_tables_short(i: u32)
    ensures
        stem_table(i).len() <= 12,
        ext_table(i).len() <= 9,
{
    reveal_strlit("report");
    reveal_strlit("IMG_");
    reveal_strlit("photo");
    reveal_strlit("Draft-REPORT");
    reveal_strlit("notes");
    reveal_strlit("data");
    reveal_strlit("kernel32");
    reveal_strlit("setup");
    reveal_strlit("movie");
    reveal_strlit("backup");
    reveal_strlit("résumé");
    reveal_strlit("日本");
    reveal_strlit("a b");
    reveal_strlit("x");
    reveal_strlit("pdf");
    reveal_strlit("PDF");
    reveal_strlit("mkv");
    reveal_strlit("mp4");
    reveal_strlit("jpg");
    reveal_strlit("JPEG");
    reveal_strlit("txt");
    reveal_strlit("rs");
    reveal_strlit("dll");
    reveal_strlit("sys");
    reveal_strlit("exe");
    reveal_strlit("bin");
    reveal_strlit("log");
    reveal_strlit("");
    reveal_strlit("gz");
    reveal_strlit("weird1234");
    reveal_strlit("Ω");
    reveal_strlit("tar");
}

proof fn lemma_decimal_short(n: nat)
    requires
        n < 1000,
    ensures
        decimal(n).len() <= 3,
{
    if n >= 10 {
        if n >= 100 {
            assert(decimal(n / 10 / 10).len() == 1);
        }
        assert(decimal(n / 10).len() <= 2);
    }
}

/// UTF-8 takes one to four bytes a character.
proof fn lemma_bytes_len(s: Seq<char>)
    ensures
        s.len() <= bytes_of(s).len() <= 4 * s.len(),
    decreases s.len(),
{
    if s.len() > 0 {
        lemma_bytes_len(s.drop_first());
    }
}

// ----- the seeded tree, entry by entry -----

/// Whether the node for `seed` is a directory: the root always; below it
/// never at depth 0, one in eight above depth 4 down to depth 1, three in
/// eight deeper.
pub open spec fn gen_is_dir(seed: u32, depth: u32, is_root: bool) -> bool {
    is_root || (depth > 0 && spec_h(seed) % 8 < (if depth > 4 { 3u32 } else { 1u32 }))
}

/// The node's flags: DIR for a directory, and SYSTEM on one in sixteen
/// nodes below the root.
pub open spec fn gen_flags(seed: u32, depth: u32, is_root: bool) -> EntryFlags {
    let f: u16 = if gen_is_dir(seed, depth, is_root) { 1 } else { 0 };
    if !is_root && spec_h(seed ^ 0x5bd1_e995u32) % 16 == 0 {
        EntryFlags(f | 128u16)
    } else {
        EntryFlags(f)
    }
}

proof fn lemma_gen_flags_dir(seed: u32, depth: u32, is_root: bool)
    ensures
        gen_flags(seed, depth, is_root).spec_is_dir() == gen_is_dir(seed, depth, is_root),
{
    assert((1u16 | 128u16) & 1u16 == 1u16 && (0u16 | 128u16) & 1u16 == 0u16 && 1u16 & 1u16 == 1u16 && 0u16 & 1u16 == 0u16) by (bit_vector);
}

/// A file's logical size: past 4 GiB one time in 64 when `huge`, else
/// empty one time in 16 (counting that 64th), else below 1 MiB.
pub open spec fn gen_file_size(seed: u32, huge: bool) -> u64 {
    let s = spec_h(seed.wrapping_add(2));
    let kind = spec_h(seed.wrapping_add(3)) % 64;
    if kind == 0 && huge {
        ((spec_h(seed.wrapping_add(4)) as u64) << 32u64) | (s as u64)
    } else if kind < 4 {
        0
    } else {
        (s % 1_048_576) as u64
    }
}

/// A file's allocated size: its size rounded up to 4 KiB, saturating.
pub open spec fn gen_file_alloc(size: u64) -> u64 {
    size.saturating_add(4095) & !4095u64
}

/// The node's name: `dir` and a number below 1000 for a directory; for a
/// file a stem, the same number, and a dot and an extension unless the
/// drawn extension is empty.
pub open spec fn gen_name(seed: u32, depth: u32, is_root: bool) -> Seq<char> {
    let num = decimal((spec_h(seed) % 1000) as nat);
    if gen_is_dir(seed, depth, is_root) {
        "dir"@ + num
    } else {
        let ext = ext_table(spec_h(seed.wrapping_add(6)) % 18);
        stem_table(spec_h(seed.wrapping_add(5)) % 14) + num + (if ext.len() == 0 {
            Seq::<char>::empty()
        } else {
            "."@ + ext
        })
    }
}

proof fn lemma_gen_name_short(seed: u32, depth: u32, is_root: bool)
    ensures
        bytes_of(gen_name(seed, depth, is_root)).len() <= 100,
{
    reveal_strlit("dir");
    reveal_strlit(".");
    lemma_tables_short(spec_h(seed.wrapping_add(5)) % 14);
    lemma_tables_short(spec_h(seed.wrapping_add(6)) % 18);
    lemma_decimal_short((spec_h(seed) % 1000) as nat);
    lemma_bytes_len(gen_name(seed, depth, is_root));
}

/// An entry as the library sees it: its fields, with the name's place in
/// the buffer replaced by the name's bytes.
pub open spec fn entry_view(names: Seq<u8>, e: FileEntry) -> (FileEntry, Seq<u8>) {
    (FileEntry { name_off: 0, name_len: 0, ..e }, name_bytes(names, e))
}

/// A batch as the library sees it, entry by entry.
pub open spec fn batch_view(b: EntryBatch) -> Seq<(FileEntry, Seq<u8>)> {
    b.entries@.map_values(|e: FileEntry| entry_view(bytes_of(b.names@), e))
}

/// The total length of the names in a viewed batch.
pub open spec fn names_len(s: Seq<(FileEntry, Seq<u8>)>) -> nat
    decreases s.len(),
{
    if s.len() == 0 {
        0
    } else {
        names_len(s.drop_last()) + s.last().1.len()
    }
}

proof fn lemma_names_len_prefix(s: Seq<(FileEntry, Seq<u8>)>, j: int)
    requires
        0 <= j <= s.len(),
    ensures
        names_len(s.take(j)) <= names_len(s),
    decreases s.len(),
{
    if j < s.len() {
        assert(s.take(j) =~= s.drop_last().take(j));
        lemma_names_len_prefix(s.drop_last(), j);
    } else {
        assert(s.take(j) =~= s);
    }
}

/// The entry for `seed`, with id `id`, under `parent`.
pub open spec fn gen_entry(seed: u32, depth: u32, parent: u32, is_root: bool, id: nat, huge: bool) -> (FileEntry, Seq<u8>) {
    let dir = gen_is_dir(seed, depth, is_root);
    let size = if dir { 0 } else { gen_file_size(seed, huge) };
    (
        FileEntry {
            path_id: id as u32,
            parent_id: parent,
            name_off: 0,
            name_len: 0,
            flags: gen_flags(seed, depth, is_root),
            size: size,
            allocated_size: if dir { 0 } else { gen_file_alloc(size) },
            mtime: 0,
        },
        bytes_of(gen_name(seed, depth, is_root)),
    )
}

/// The seed of a directory's child number `i`.
pub open spec fn kid_seed(seed: u32, i: u32) -> u32 {
    spec_h(seed ^ spec_h(i.wrapping_add(0x9e37_79b9u32)))
}

/// How many children a directory for `seed` has.
pub open spec fn kid_count(seed: u32) -> u32 {
    spec_h(seed.wrapping_add(1)) % 13
}

/// The entries of the node for `seed` with id `id`, then, for a directory,
/// those of its children in order, each one level shallower, ids counting
/// up in the order the entries come.
pub open spec fn gen_nodes(seed: u32, depth: u32, parent: u32, is_root: bool, id: nat, huge: bool) -> Seq<(FileEntry, Seq<u8>)>
    decreases depth, if is_root { 1int } else { 0int }, 1int, 0int,
{
    let me = gen_entry(seed, depth, parent, is_root, id, huge);
    if gen_is_dir(seed, depth, is_root) {
        seq![me] + gen_kids(seed, depth, is_root, id, 0, id + 1, huge)
    } else {
        seq![me]
    }
}

/// The entries of the children `i..` of the directory for `seed` with id
/// `id`, the first of them taking id `next`.
pub open spec fn gen_kids(seed: u32, depth: u32, is_root: bool, id: nat, i: u32, next: nat, huge: bool) -> Seq<(FileEntry, Seq<u8>)>
    decreases depth, if is_root { 1int } else { 0int }, 0int, kid_count(seed) - i,
{
    if i >= kid_count(seed) || !(depth > 0 || is_root) {
        Seq::empty()
    } else {
        let first = gen_nodes(kid_seed(seed, i), depth.saturating_sub(1), id as u32, false, next, huge);
        first + gen_kids(seed, depth, is_root, id, (i + 1) as u32, next + first.len(), huge)
    }
}

/// The seeded tree's entries, root first.
pub open spec fn gen_tree(seed: u32, depth: u32, huge: bool) -> Seq<(FileEntry, Seq<u8>)> {
    gen_nodes(seed, depth, 0, true, 0, huge)
}

/// Generating `g` into an empty batch runs out: some entry would take id
/// `u32::MAX`, or would push the name buffer past `u32::MAX` bytes.
pub open spec fn gen_runs_out(g: Seq<(FileEntry, Seq<u8>)>) -> bool {
    exists|m: int| 0 <= m < g.len() && (m >= u32::MAX || names_len(g.take(m)) + (#[trigger] g[m]).1.len() > u32::MAX)
}

/// Generation went from `before` to `after` and stopped at entry `m` of
/// `g`, the first that no longer fit.
pub open spec fn stopped_at(before: EntryBatch, after: EntryBatch, g: Seq<(FileEntry, Seq<u8>)>, m: int) -> bool {
    &&& 0 <= m < g.len()
    &&& batch_view(after) == batch_view(before) + g.take(m)
    &&& (after.entries@.len() == u32::MAX || bytes_of(after.names@).len() + g[m].1.len() > u32::MAX)
}


/// The batch a seeded tree is built from is a scanner stream: entry `k`
/// has id `k`; the first is the root directory, its own parent; every
/// later entry hangs under an earlier directory; directories carry no
/// bytes of their own; every name is a valid slice of the name buffer.
pub open spec fn stream_ok(b: EntryBatch) -> bool {
    let es = b.entries@;
    &&& b.wf()
    &&& forall|k: int| 0 <= k < es.len() ==> (#[trigger] es[k]).path_id == k
    &&& es.len() > 0 ==> es[0].parent_id == 0 && es[0].flags.spec_is_dir()
    &&& forall|k: int| 1 <= k < es.len() ==> {
        let e = #[trigger] es[k];
        &&& e.parent_id < k
        &&& es[e.parent_id as int].flags.spec_is_dir()
    }
    &&& forall|k: int| 0 <= k < es.len() && (#[trigger] es[k]).flags.spec_is_dir() ==> es[k].size == 0 && es[k].allocated_size == 0
}

proof fn lemma_stream_push(before: Seq<FileEntry>, es: Seq<FileEntry>, parent: int, is_root: bool)
    requires
        es.len() == before.len() + 1,
        es.take(before.len() as int) == before,
        es.last().path_id == before.len(),
        es.last().parent_id == parent,
        es.last().flags.spec_is_dir() ==> es.last().size == 0 && es.last().allocated_size == 0,
        is_root ==> before.len() == 0 && parent == 0 && es.last().flags.spec_is_dir(),
        !is_root ==> 0 <= parent < before.len() && before[parent].flags.spec_is_dir(),
        forall|k: int| 0 <= k < before.len() ==> (#[trigger] before[k]).path_id == k,
        before.len() > 0 ==> before[0].parent_id == 0 && before[0].flags.spec_is_dir(),
        forall|k: int| 1 <= k < before.len() ==> {
            let e = #[trigger] before[k];
            &&& e.parent_id < k
            &&& before[e.parent_id as int].flags.spec_is_dir()
        },
        forall|k: int| 0 <= k < before.len() && (#[trigger] before[k]).flags.spec_is_dir() ==> before[k].size == 0 && before[k].allocated_size == 0,
    ensures
        forall|k: int| 0 <= k < es.len() ==> (#[trigger] es[k]).path_id == k,
        es.len() > 0 ==> es[0].parent_id == 0 && es[0].flags.spec_is_dir(),
        forall|k: int| 1 <= k < es.len() ==> {
            let e = #[trigger] es[k];
            &&& e.parent_id < k
            &&& es[e.parent_id as int].flags.spec_is_dir()
        },
        forall|k: int| 0 <= k < es.len() && (#[trigger] es[k]).flags.spec_is_dir() ==> es[k].size == 0 && es[k].allocated_size == 0,
{
    let n = before.len() as int;
    assert forall|k: int| 0 <= k < n implies es[k] == before[k] by {
        assert(es.take(n)[k] == es[k]);
    }
    assert forall|k: int| 1 <= k < es.len() implies {
        let e = #[trigger] es[k];
        &&& e.parent_id < k
        &&& es[e.parent_id as int].flags.spec_is_dir()
    } by {
        if k < n {
            assert(es[k] == before[k]);
            assert(es[before[k].parent_id as int] == before[before[k].parent_id as int]);
        } else {
            assert(es[parent] == before[parent]);
        }
    }
    if n > 0 {
        assert(es[0] == before[0]);
    }
}

/// A seeded tree being generated: the batch so far and the next id.
pub struct TreeGen {
    pub batch: EntryBatch,
    pub next: u32,
    pub huge: bool,
}

impl TreeGen {
    /// The batch is a scanner stream, `next` is its next id, and its name
    /// buffer holds exactly the entries' names and fits 32-bit offsets.
    pub open spec fn ok(&self) -> bool {
        &&& stream_ok(self.batch)
        &&& self.next == self.batch.entries@.len()
        &&& bytes_of(self.batch.names@).len() <= u32::MAX
        &&& bytes_of(self.batch.names@).len() == names_len(batch_view(self.batch))
    }

    /// The flags, size, allocated size and name of the node for `seed`.
    fn node_fields(seed: u32, depth: u32, is_root: bool, huge: bool) -> (r: (EntryFlags, u64, u64, String))
        ensures
            ({
                let e = gen_entry(seed, depth, 0, is_root, 0, huge).0;
                &&& r.0 == e.flags
                &&& r.1 == e.size
                &&& r.2 == e.allocated_size
            }),
            r.3@ == gen_name(seed, depth, is_root),
            r.0.spec_is_dir() == gen_is_dir(seed, depth, is_root),
    {
        proof {
            lemma_gen_flags_dir(seed, depth, is_root);
        }
        let r = h(seed);
        let thresh: u32 = if depth > 4 { 3 } else { 1 };
        let dir = is_root || (depth > 0 && r % 8 < thresh);
        let sys = !is_root && h(seed ^ 0x5bd1_e995) % 16 == 0;
        let mut flags = if dir { EntryFlags::dir() } else { EntryFlags(0) };
        if sys {
            flags = flags.union(EntryFlags::system());
        }
        let mut name = String::new();
        if dir {
            proof {
                reveal_strlit("dir");
            }
            push_str(&mut name, "dir");
            push_decimal(&mut name, (r % 1000) as u64);
            return (flags, 0, 0, name);
        }
        let s = h(seed.wrapping_add(2));
        let kind = h(seed.wrapping_add(3)) % 64;
        let size: u64 = if kind == 0 && huge {
            ((h(seed.wrapping_add(4)) as u64) << 32u64) | s as u64
        } else if kind < 4 {
            0
        } else {
            (s % 1_048_576) as u64
        };
        let alloc = size.saturating_add(4095) & !4095u64;
        let stem = base_name(h(seed.wrapping_add(5)) % 14);
        push_str(&mut name, stem);
        push_decimal(&mut name, (r % 1000) as u64);
        let ext = ext_name(h(seed.wrapping_add(6)) % 18);
        let ghost mid = name@;
        proof {
            lemma_bytes_len(ext@);
        }
        if byte_len(ext) > 0 {
            push_str(&mut name, ".");
            push_str(&mut name, ext);
            proof {
                assert(name@ =~= mid + ("."@ + ext@));
            }
        } else {
            proof {
                assert(name@ =~= mid + Seq::<char>::empty());
            }
        }
        (flags, size, alloc, name)
    }

    /// Appends the entry for `seed` alone, the root or under `parent`, where
    /// its id and name fit; returns whether it did and whether it is a
    /// directory.
    fn push_node(&mut self, seed: u32, depth: u32, parent: u32, is_root: bool) -> (r: (bool, bool))
        requires
            old(self).ok(),
            is_root ==> old(self).batch.entries@.len() == 0 && parent == 0,
            !is_root ==> parent < old(self).batch.entries@.len() && old(self).batch.entries@[parent as int].flags.spec_is_dir(),
        ensures
            final(self).ok(),
            final(self).huge == old(self).huge,
            final(self).batch.entries@.take(old(self).batch.entries@.len() as int) == old(self).batch.entries@,
            ({
                let e = gen_entry(seed, depth, parent, is_root, old(self).batch.entries@.len(), old(self).huge);
                &&& r.0 ==> batch_view(final(self).batch) == batch_view(old(self).batch).push(e)
                &&& r.0 ==> r.1 == gen_is_dir(seed, depth, is_root)
                &&& !r.0 ==> *final(self) == *old(self)
                &&& !r.0 <==> (old(self).batch.entries@.len() == u32::MAX || bytes_of(old(self).batch.names@).len() + e.1.len() > u32::MAX)
            }),
    {
        let (flags, size, alloc, name) = Self::node_fields(seed, depth, is_root, self.huge);
        proof {
            lemma_gen_name_short(seed, depth, is_root);
        }
        let nb = byte_len(self.batch.names.as_str());
        let ln = byte_len(name.as_str());
        if self.next == u32::MAX || nb as u64 + ln as u64 > 0xFFFF_FFFF {
            return (false, false);
        }
        let id = self.next;
        let ghost before = self.batch.entries@;
        let ghost old_names = self.batch.names@;
        let ghost v0 = batch_view(self.batch);
        let entry = FileEntry { path_id: id, parent_id: parent, name_off: 0, name_len: 0, flags, size, allocated_size: alloc, mtime: 0 };
        self.batch.push(name.as_str(), entry);
        self.next = self.next + 1;
        proof {
            let nbytes = bytes_of(name@);
            assert(nbytes.subrange(0, kept_len(nbytes) as int) =~= nbytes);
            let ob = bytes_of(old_names);
            let fb = bytes_of(self.batch.names@);
            assert(fb == ob + nbytes);
            encode_utf8_valid_utf8(old_names);
            encode_utf8_valid_utf8(name@);
            let v1 = batch_view(self.batch);
            let e = gen_entry(seed, depth, parent, is_root, before.len(), self.huge);
            assert forall|k: int| 0 <= k < before.len() implies v1[k] == v0[k] by {
                assert(self.batch.entries@[k] == before[k]);
                lemma_name_kept(ob, nbytes, before[k]);
            }
            assert(v1[before.len() as int] == e);
            assert(v1 =~= v0.push(e));
            assert(v0.push(e).drop_last() =~= v0);
            assert(self.batch.entries@.take(before.len() as int) =~= before);
            lemma_stream_push(before, self.batch.entries@, parent as int, is_root);
        }
        (true, flags.is_dir())
    }

    /// Generates the node for `seed`, and below a directory its
    /// `h(seed + 1) % 13` children, each one level shallower, as entries
    /// appended to the batch: those of `gen_nodes`. Stops (false) at the
    /// first entry whose id or name no longer fits.
    pub fn node(&mut self, seed: u32, depth: u32, parent: u32, is_root: bool) -> (ok: bool)
        requires
            old(self).ok(),
            is_root ==> old(self).batch.entries@.len() == 0 && parent == 0,
            !is_root ==> parent < old(self).batch.entries@.len() && old(self).batch.entries@[parent as int].flags.spec_is_dir(),
        ensures
            final(self).ok(),
            final(self).huge == old(self).huge,
            final(self).batch.entries@.take(old(self).batch.entries@.len() as int) == old(self).batch.entries@,
            ({
                let g = gen_nodes(seed, depth, parent, is_root, old(self).batch.entries@.len(), old(self).huge);
                &&& ok ==> batch_view(final(self).batch) == batch_view(old(self).batch) + g
                &&& !ok ==> exists|m: int| stopped_at(old(self).batch, final(self).batch, g, m)
            }),
        decreases depth, if is_root { 1int } else { 0int },
    {
        let id = self.next;
        let ghost huge = self.huge;
        let ghost g = gen_nodes(seed, depth, parent, is_root, id as nat, huge);
        let ghost me = gen_entry(seed, depth, parent, is_root, id as nat, huge);
        let ghost v0 = batch_view(self.batch);
        let (pushed, dir) = self.push_node(seed, depth, parent, is_root);
        if !pushed {
            proof {
                assert(g[0] == me);
                assert(v0 + g.take(0) =~= v0);
                assert(stopped_at(old(self).batch, self.batch, g, 0));
                assert(self.batch.entries@.take(old(self).batch.entries@.len() as int) =~= self.batch.entries@);
            }
            return false;
        }
        if !dir {
            proof {
                assert(g =~= seq![me]);
                assert(v0.push(me) =~= v0 + g);
            }
            return true;
        }
        let nk = h(seed.wrapping_add(1)) % 13;
        let ghost mut done: Seq<(FileEntry, Seq<u8>)> = seq![me];
        proof {
            assert(g == seq![me] + gen_kids(seed, depth, is_root, id as nat, 0, (id + 1) as nat, huge));
            assert(v0.push(me) =~= v0 + done);
            lemma_gen_flags_dir(seed, depth, is_root);
            assert(batch_view(self.batch)[id as int] == me);
            assert(batch_view(self.batch)[id as int].0.flags == self.batch.entries@[id as int].flags);
        }
        let mut i: u32 = 0;
        while i < nk
            invariant
                self.ok(),
                self.huge == huge,
                huge == old(self).huge,
                depth > 0 || is_root,
                id == old(self).batch.entries@.len(),
                id < self.batch.entries@.len(),
                self.batch.entries@[id as int].flags.spec_is_dir(),
                self.batch.entries@.len() >= old(self).batch.entries@.len() + 1,
                self.batch.entries@.take(old(self).batch.entries@.len() as int) == old(self).batch.entries@,
                nk == kid_count(seed),
                i <= nk,
                v0 == batch_view(old(self).batch),
                g == gen_nodes(seed, depth, parent, is_root, id as nat, huge),
                batch_view(self.batch) == v0 + done,
                done + gen_kids(seed, depth, is_root, id as nat, i, self.batch.entries@.len() as nat, huge) == g,
            decreases nk - i,
        {
            let kid = h(seed ^ h(i.wrapping_add(0x9e37_79b9)));
            let ghost mid = self.batch.entries@;
            let ghost cur = self.batch;
            let ghost first = gen_nodes(kid, depth.saturating_sub(1), id, false, mid.len() as nat, huge);
            let ghost rest = gen_kids(seed, depth, is_root, id as nat, (i + 1) as u32, mid.len() + first.len(), huge);
            proof {
                assert(gen_kids(seed, depth, is_root, id as nat, i, mid.len() as nat, huge) == first + rest);
                assert(batch_view(cur).len() == mid.len());
            }
            let ok = self.node(kid, depth.saturating_sub(1), id, false);
            proof {
                let es = self.batch.entries@;
                assert(es[id as int] == es.take(mid.len() as int)[id as int]);
                assert(es.take(old(self).batch.entries@.len() as int) =~= mid.take(old(self).batch.entries@.len() as int));
            }
            if !ok {
                proof {
                    let m = choose|m: int| stopped_at(cur, self.batch, first, m);
                    let big = done.len() + m;
                    assert(g =~= done + first + rest);
                    assert(g.take(big) =~= done + first.take(m));
                    assert(g[big] == first[m]);
                    assert(batch_view(self.batch) =~= v0 + g.take(big));
                    assert(stopped_at(old(self).batch, self.batch, g, big));
                }
                return false;
            }
            proof {
                assert(batch_view(self.batch) =~= v0 + (done + first));
                assert(batch_view(self.batch).len() == self.batch.entries@.len());
                assert((done + first) + rest =~= done + (first + rest));
                done = done + first;
            }
            i = i + 1;
        }
        proof {
            assert(done + Seq::<(FileEntry, Seq<u8>)>::empty() =~= done);
        }
        true
    }
}

/// The seeded batch of a tree `depth` levels deep (sizes past 4 GiB when
/// `huge`): the entries of `gen_tree`, or `None` exactly where generating
/// them runs out of ids or name bytes.
pub fn generate(seed: u32, depth: u32, huge: bool) -> (r: Option<EntryBatch>)
    ensures
        r is Some <==> !gen_runs_out(gen_tree(seed, depth, huge)),
        r matches Some(b) ==> stream_ok(b) && batch_view(b) == gen_tree(seed, depth, huge),
{
    let mut g = TreeGen { batch: EntryBatch::with_capacity(0, 0), next: 0, huge };
    proof {
        assert(batch_view(g.batch) =~= Seq::<(FileEntry, Seq<u8>)>::empty());
        assert(bytes_of(g.batch.names@) =~= Seq::<u8>::empty());
    }
    let ghost t = gen_tree(seed, depth, huge);
    let ghost b0 = g.batch;
    let ghost v0 = batch_view(g.batch);
    if g.node(seed, depth, 0, true) {
        proof {
            assert(v0 + t =~= t);
            assert forall|m: int| 0 <= m < t.len() implies !(m >= u32::MAX || names_len(t.take(m)) + (#[trigger] t[m]).1.len() > u32::MAX) by {
                assert(t.take(m + 1).drop_last() =~= t.take(m));
                lemma_names_len_prefix(t, m + 1);
            }
        }
        Some(g.batch)
    } else {
        proof {
            let m = choose|m: int| stopped_at(b0, g.batch, t, m);
            assert(v0 + t.take(m) =~= t.take(m));
            assert(batch_view(g.batch).len() == g.batch.entries@.len());
            assert(0 <= m < t.len() && (m >= u32::MAX || names_len(t.take(m)) + t[m].1.len() > u32::MAX));
        }
        None
    }
}

/// `b` is the seeded batch for `(seed, depth, huge)`.
pub open spec fn seeded(b: EntryBatch, seed: u32, depth: u32, huge: bool) -> bool {
    stream_ok(b) && batch_view(b) == gen_tree(seed, depth, huge)
}

/// A tree with nothing in it.
pub open spec fn is_empty_tree(t: Tree) -> bool {
    t.wf() && t.slots() == 0 && t.name_bytes_view().len() == 0
}

/// `t` takes `b` in one `add_batch`: what `accepts_batch` checks.
pub open spec fn takes(t: Tree, b: EntryBatch) -> bool {
    &&& t.accepts(b.entries@)
    &&& t.total_size() + batch_size(b.entries@) <= u64::MAX
    &&& t.total_allocated() + batch_allocated(b.entries@) <= u64::MAX
    &&& t.name_bytes_view().len() + batch_name_bytes(b.entries@) <= u32::MAX
}

/// `t` is what `add_batch` makes of `b` on an empty tree: the batch's
/// entries placed, linked and totalled, and nothing else.
pub open spec fn built_from(t: Tree, b: EntryBatch) -> bool {
    let es = b.entries@;
    &&& t.wf()
    &&& t.slots() == slots_after(0, es)
    &&& forall|m: int| #[trigger] t.live(m) == holds_id(es, m)
    &&& forall|k: int| 0 <= k < es.len() ==> t.placed(#[trigger] es[k], name_bytes(bytes_of(b.names@), es[k]))
    &&& forall|p: int| 0 <= p < t.slots() ==> #[trigger] t.children_of(p) == new_children(es, p)
    &&& t.total_size() == batch_size(es)
    &&& t.total_allocated() == batch_allocated(es)
}

/// The seeded tree: the seeded batch added to an empty tree. `None` where
/// the batch runs out of ids or name bytes, or an empty tree does not take
/// it (its sizes overflow the tree's totals).
pub fn build(seed: u32, depth: u32, huge: bool) -> (r: Option<Tree>)
    ensures
        r matches Some(t) ==> exists|b: EntryBatch| #![auto] seeded(b, seed, depth, huge) && built_from(t, b),
        r is Some ==> !gen_runs_out(gen_tree(seed, depth, huge)),
        r is None ==> gen_runs_out(gen_tree(seed, depth, huge)) || exists|b: EntryBatch, t0: Tree|
            seeded(b, seed, depth, huge) && is_empty_tree(t0) && !#[trigger] takes(t0, b),
{
    let batch = match generate(seed, depth, huge) {
        Some(b) => b,
        None => return None,
    };
    let mut b = TreeBuilder::new();
    let ghost t0 = b.tree_view();
    proof {
        assert(t0.total_size() == 0);
        assert(t0.total_allocated() == 0);
    }
    if !b.tree().accepts_batch(&batch) {
        proof {
            assert(seeded(batch, seed, depth, huge) && is_empty_tree(t0) && !takes(t0, batch));
        }
        return None;
    }
    b.add_batch(&batch);
    let t = b.finish();
    proof {
        let es = batch.entries@;
        assert forall|m: int| #[trigger] t.live(m) == holds_id(es, m) by {
            if t0.live(m) {
                t0.lemma_live_slot(m);
            }
        }
        assert forall|p: int| 0 <= p < t.slots() implies #[trigger] t.children_of(p) == new_children(es, p) by {
            assert(new_children(es, p) + Seq::<u32>::empty() =~= new_children(es, p));
        }
    }
    let r = Some(t);
    assert(seeded(batch, seed, depth, huge) && built_from(r->0, batch));
    r
}

// ----- a digest of a tree's totals -----

/// `v`'s last `w` hex digits, zero padded on the left (for `v < 16^w`,
/// `v` in `w` lowercase hex digits).
pub open spec fn hex_width(v: nat, w: nat) -> Seq<char>
    decreases w,
{
    if w == 0 {
        Seq::empty()
    } else {
        hex_width(v / 16, (w - 1) as nat).push(crate::export::hex_char(v % 16))
    }
}

fn push_hex_width(out: &mut String, v: u64, w: u32)
    ensures
        final(out)@ == old(out)@ + hex_width(v as nat, w as nat),
    decreases w,
{
    if w > 0 {
        push_hex_width(out, v / 16, w - 1);
        push_char(out, hex_digit((v % 16) as u32));
    }
}

/// Folds a 64-bit value into a 32-bit accumulator through `h`.
pub open spec fn spec_fold_mix(acc: u32, v: u64) -> u32 {
    spec_h(acc ^ spec_h((v as u32) ^ spec_h((v >> 32u64) as u32)))
}

pub fn fold_mix(acc: u32, v: u64) -> (r: u32)
    ensures
        r == spec_fold_mix(acc, v),
{
    h(acc ^ h((v as u32) ^ h((v >> 32) as u32)))
}

/// What node `id` adds to the aggregate sum: its item count, size and
/// allocated size folded in.
pub open spec fn node_mix(id: u32, n: Node) -> u32 {
    spec_fold_mix(spec_fold_mix(spec_h(id ^ spec_h(n.items)), n.size), n.allocated)
}

/// The wrapping sum of `node_mix` over the first `k` slots.
pub open spec fn agg_sum(t: Tree, k: nat) -> u32
    decreases k,
{
    if k == 0 {
        0
    } else {
        agg_sum(t, (k - 1) as nat).wrapping_add(node_mix((k - 1) as u32, t.node_view(k - 1)))
    }
}

/// The digest's three lines: the slot count; the root's size and
/// allocated size in 16 hex digits and its item count; the aggregate sum
/// in 8 hex digits.
pub open spec fn digest_text(t: Tree) -> Seq<char> {
    let root = t.node_view(0);
    "nodes "@ + decimal(t.slots()) + "\n"@ + "root "@ + hex_width(root.size as nat, 16) + " "@ + hex_width(
        root.allocated as nat,
        16,
    ) + " "@ + decimal(root.items as nat) + "\n"@ + "aggsum "@ + hex_width(agg_sum(t, t.slots()) as nat, 8) + "\n"@
}

/// A digest of every node's totals, for comparing two implementations'
/// trees line by line.
pub fn digest(tree: &Tree) -> (r: String)
    requires
        tree.wf(),
        tree.slots() > 0,
    ensures
        r@ == digest_text(*tree),
{
    proof {
        tree.lemma_slots_bound();
    }
    let n = tree.len() as u32;
    let root = tree.node(0);
    let mut o = String::new();
    push_str(&mut o, "nodes ");
    push_decimal(&mut o, n as u64);
    push_str(&mut o, "\n");
    push_str(&mut o, "root ");
    push_hex_width(&mut o, root.size, 16);
    push_str(&mut o, " ");
    push_hex_width(&mut o, root.allocated, 16);
    push_str(&mut o, " ");
    push_decimal(&mut o, root.items as u64);
    push_str(&mut o, "\n");
    let mut sum: u32 = 0;
    let mut id: u32 = 0;
    while id < n
        invariant
            id <= n,
            n == tree.slots(),
            sum == agg_sum(*tree, id as nat),
        decreases n - id,
    {
        let nd = tree.node(id);
        sum = sum.wrapping_add(fold_mix(fold_mix(h(id ^ h(nd.items)), nd.size), nd.allocated));
        id = id + 1;
    }
    push_str(&mut o, "aggsum ");
    push_hex_width(&mut o, sum as u64, 8);
    push_str(&mut o, "\n");
    proof {
        assert(o@ =~= digest_text(*tree));
    }
    o
}

/// The expected line for a name in the categorization suite: the file
/// category's palette slot, a space, and the lowercase extension key, or
/// `-` where the name has none.
pub open spec fn category_line_text(name: Seq<u8>) -> Seq<char> {
    decimal(palette_slot(spec_categorize(name, false)) as nat) + " "@ + match key_of(name) {
        Some(k) => k,
        None => "-"@,
    }
}

pub fn category_line(name: &str) -> (r: String)
    ensures
        r@ == category_line_text(name.spec_bytes()),
{
    let mut o = String::new();
    push_decimal(&mut o, categorize(name, false).index() as u64);
    push_str(&mut o, " ");
    match extension_key(name) {
        Some(k) => push_str(&mut o, k.as_str()),
        None => push_str(&mut o, "-"),
    }
    o
}

} // verus!
