//! The NTFS on-disk formats: boot sector geometry, data-run lists and FILE
//! records. Everything here is pure byte code over caller-supplied buffers;
//! a corrupt or hostile byte stream yields a `ParseError`, never a panic or
//! an out-of-bounds read.

use vstd::prelude::*;

pub mod boot;
pub mod record;
pub mod runs;
pub mod fixture;
pub mod pipeline;
pub mod assemble;
pub mod chunks;

verus! {

/// Parse-boundary failure: a static reason, no allocation.
#[derive(Clone, Copy, Debug, PartialEq, Eq)]
pub struct ParseError(pub &'static str);

impl ParseError {
    /// The reason, as text.
    pub fn reason(&self) -> (r: &'static str)
        ensures
            r == self.0,
    {
        self.0
    }
}

/// The value of little-endian bytes.
pub open spec fn le_value(b: Seq<u8>) -> nat
    decreases b.len(),
{
    if b.len() == 0 {
        0
    } else {
        b[0] as nat + 256 * le_value(b.drop_first())
    }
}

/// `256^n`.
pub open spec fn pow256(n: nat) -> nat
    decreases n,
{
    if n == 0 {
        1
    } else {
        256 * pow256((n - 1) as nat)
    }
}

/// The two's-complement value of little-endian bytes.
pub open spec fn le_signed(b: Seq<u8>) -> int {
    let u = le_value(b);
    if b.len() > 0 && u >= pow256(b.len()) / 2 {
        u - pow256(b.len())
    } else {
        u as int
    }
}

pub proof fn lemma_le_value_bound(b: Seq<u8>)
    ensures
        le_value(b) < pow256(b.len()),
    decreases b.len(),
{
    if b.len() > 0 {
        lemma_le_value_bound(b.drop_first());
    }
}

pub proof fn lemma_pow256_values()
    ensures
        pow256(1) == 0x100,
        pow256(2) == 0x10000,
        pow256(4) == 0x1_0000_0000,
        pow256(8) == 0x1_0000_0000_0000_0000,
{
    reveal_with_fuel(pow256, 9);
}

pub proof fn lemma_pow256_mono(a: nat, b: nat)
    requires
        a <= b,
    ensures
        pow256(a) <= pow256(b),
        pow256(a) >= 1,
    decreases b,
{
    if b > a {
        lemma_pow256_mono(a, (b - 1) as nat);
    } else if a > 0 {
        lemma_pow256_mono((a - 1) as nat, (a - 1) as nat);
    }
}

/// The little-endian value of `b[off..off + n]`.
pub open spec fn le_at(b: Seq<u8>, off: int, n: int) -> nat {
    le_value(b.subrange(off, off + n))
}

/// Little-endian unsigned value of 1 to 8 bytes.
pub fn uint_le(bytes: &[u8], off: usize, n: usize) -> (v: u64)
    requires
        1 <= n <= 8,
        off + n <= bytes@.len(),
    ensures
        v == le_at(bytes@, off as int, n as int),
{
    let ghost s = bytes@.subrange(off as int, off + n);
    let total = bytes.len();
    let mut v: u64 = 0;
    let mut i: usize = n;
    proof {
        lemma_pow256_values();
        assert(s.subrange(n as int, n as int) =~= Seq::<u8>::empty());
    }
    while i > 0
        invariant
            1 <= n <= 8,
            off + n <= bytes@.len(),
            total == bytes@.len(),
            s == bytes@.subrange(off as int, off + n),
            i <= n,
            v == le_value(s.subrange(i as int, n as int)),
            pow256(8) == 0x1_0000_0000_0000_0000,
        decreases i,
    {
        let ghost rest = s.subrange(i as int, n as int);
        i = i - 1;
        proof {
            assert(s.subrange(i as int, n as int).drop_first() =~= rest);
            lemma_le_value_bound(rest);
            lemma_pow256_mono(rest.len(), 7);
            assert(s[i as int] == bytes@[off + i]);
        }
        v = v * 256 + bytes[off + i] as u64;
    }
    proof {
        assert(s.subrange(0, n as int) =~= s);
    }
    v
}

/// `256^n` for `n <= 8`.
fn pow256_exec(n: usize) -> (r: u128)
    requires
        n <= 8,
    ensures
        r == pow256(n as nat),
{
    let mut r: u128 = 1;
    let mut i: usize = 0;
    proof {
        lemma_pow256_values();
    }
    while i < n
        invariant
            i <= n <= 8,
            r == pow256(i as nat),
        decreases n - i,
    {
        proof {
            lemma_pow256_mono(i as nat, 7);
            lemma_pow256_values();
            lemma_pow256_mono(8, 8);
            assert(pow256((i + 1) as nat) == 256 * pow256(i as nat));
        }
        r = r * 256;
        i = i + 1;
    }
    r
}

/// Little-endian two's-complement value of 1 to 8 bytes.
pub fn int_le(bytes: &[u8], off: usize, n: usize) -> (v: i64)
    requires
        1 <= n <= 8,
        off + n <= bytes@.len(),
    ensures
        v == le_signed(bytes@.subrange(off as int, off + n)),
{
    let u = uint_le(bytes, off, n);
    let full = pow256_exec(n);
    proof {
        lemma_le_value_bound(bytes@.subrange(off as int, off + n));
        lemma_pow256_values();
        lemma_pow256_mono(n as nat, 8);
        lemma_pow256_mono(1, n as nat);
    }
    if (u as u128) >= full / 2 {
        (u as i128 - full as i128) as i64
    } else {
        u as i64
    }
}

/// The little-endian `u16` at `off`.
pub fn u16_at(b: &[u8], off: usize) -> (v: u16)
    requires
        off + 2 <= b@.len(),
    ensures
        v == le_at(b@, off as int, 2),
{
    proof {
        lemma_le_value_bound(b@.subrange(off as int, off + 2));
        lemma_pow256_values();
    }
    uint_le(b, off, 2) as u16
}

/// The little-endian `u32` at `off`.
pub fn u32_at(b: &[u8], off: usize) -> (v: u32)
    requires
        off + 4 <= b@.len(),
    ensures
        v == le_at(b@, off as int, 4),
{
    proof {
        lemma_le_value_bound(b@.subrange(off as int, off + 4));
        lemma_pow256_values();
    }
    uint_le(b, off, 4) as u32
}

/// The little-endian `u64` at `off`.
pub fn u64_at(b: &[u8], off: usize) -> (v: u64)
    requires
        off + 8 <= b@.len(),
    ensures
        v == le_at(b@, off as int, 8),
{
    uint_le(b, off, 8)
}

} // verus!
