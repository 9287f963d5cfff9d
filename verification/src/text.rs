//! UTF-8 facts and small string helpers shared by the byte-offset name
//! buffers (entry batches, the interner) and the text builders.

use vstd::prelude::*;
use vstd::std_specs::iter::IteratorSpec;
use vstd::string::StringExecFns;
use vstd::string::StringSliceAdditionalSpecFns;
use vstd::utf8::*;

verus! {

broadcast use vstd::utf8::group_utf8_lib;

/// The UTF-8 bytes of a character sequence.
pub open spec fn bytes_of(s: Seq<char>) -> Seq<u8> {
    encode_utf8(s)
}

/// `i` cuts `bytes` between two characters (or at either end).
pub open spec fn boundary(bytes: Seq<u8>, i: int) -> bool {
    ||| i == 0
    ||| i == bytes.len()
    ||| (0 < i < bytes.len() && !is_continuation_byte(bytes[i]))
}

pub proof fn lemma_encode_concat(a: Seq<char>, b: Seq<char>)
    ensures
        encode_utf8(a + b) == encode_utf8(a) + encode_utf8(b),
    decreases a.len(),
{
    if a.len() == 0 {
        assert(a + b =~= b);
        assert(encode_utf8(a) =~= Seq::<u8>::empty());
        assert(encode_utf8(a) + encode_utf8(b) =~= encode_utf8(b));
    } else {
        assert((a + b).drop_first() =~= a.drop_first() + b);
        assert((a + b)[0] == a[0]);
        lemma_encode_concat(a.drop_first(), b);
        assert(encode_utf8(a + b) =~= encode_scalar(a[0] as u32) + (encode_utf8(a.drop_first())
            + encode_utf8(b)));
    }
}

/// Our boundary notion agrees with vstd's on valid UTF-8.
pub proof fn lemma_boundary_is_char_boundary(bytes: Seq<u8>, i: int)
    requires
        valid_utf8(bytes),
        0 <= i <= bytes.len(),
    ensures
        boundary(bytes, i) <==> is_char_boundary(bytes, i),
{
    is_char_boundary_start_end_of_seq(bytes);
    if 0 < i < bytes.len() {
        is_char_boundary_iff_not_is_continuation_byte(bytes, i);
    }
}

/// Boundaries of a prefix stay boundaries once more bytes follow.
pub proof fn lemma_boundary_extend(a: Seq<u8>, b: Seq<u8>, i: int)
    requires
        valid_utf8(a),
        valid_utf8(b),
        boundary(a, i),
    ensures
        boundary(a + b, i),
        boundary(a + b, a.len() as int),
{
    if b.len() > 0 {
        is_char_boundary_start_end_of_seq(b);
        is_char_boundary_iff_not_is_continuation_byte(b, 0);
        assert((a + b)[a.len() as int] == b[0]);
    }
    if 0 < i < a.len() {
        assert((a + b)[i] == a[i]);
    }
}

/// Boundaries of a suffix, shifted by the prefix length.
pub proof fn lemma_boundary_shift(a: Seq<u8>, b: Seq<u8>, i: int)
    requires
        valid_utf8(b),
        boundary(b, i),
    ensures
        boundary(a + b, a.len() + i),
{
    if i == 0 && b.len() > 0 {
        is_char_boundary_start_end_of_seq(b);
        is_char_boundary_iff_not_is_continuation_byte(b, 0);
        assert((a + b)[a.len() as int] == b[0]);
    }
    if 0 < i < b.len() {
        assert((a + b)[a.len() + i] == b[i]);
    }
}

/// The substring of `s` at byte range `off .. off + len`.
pub fn substr(s: &str, off: usize, len: usize) -> (r: &str)
    requires
        off + len <= s.spec_bytes().len(),
        boundary(s.spec_bytes(), off as int),
        boundary(s.spec_bytes(), off + len),
    ensures
        r.spec_bytes() == s.spec_bytes().subrange(off as int, off + len),
{
    let ghost b = s.spec_bytes();
    proof {
        encode_utf8_valid_utf8(s@);
        lemma_boundary_is_char_boundary(b, off as int);
    }
    let (_, rest) = s.split_at(off);
    let ghost rb = rest.spec_bytes();
    proof {
        assert(rb =~= b.subrange(off as int, b.len() as int));
        valid_utf8_split(b, off as int);
        assert(valid_utf8(rb));
        if 0 < len < rb.len() {
            assert(rb[len as int] == b[off + len]);
        }
        assert(boundary(rb, len as int));
        lemma_boundary_is_char_boundary(rb, len as int);
    }
    let (r, _) = rest.split_at(len);
    proof {
        assert(r.spec_bytes() =~= b.subrange(off as int, off + len));
    }
    r
}

/// The length of `s` in bytes.
pub fn byte_len(s: &str) -> (n: usize)
    ensures
        n == s.spec_bytes().len(),
{
    s.as_bytes().len()
}

/// Appends `piece` to `out`.
pub fn push_str(out: &mut String, piece: &str)
    ensures
        final(out)@ == old(out)@ + piece@,
{
    out.append(piece);
}

/// The characters of `s`, in order.
pub fn chars_of(s: &str) -> (v: Vec<char>)
    ensures
        v@ == s@,
{
    broadcast use vstd::string::group_string_axioms;
    let mut v: Vec<char> = Vec::new();
    let mut it = s.chars();
    let ghost total = s@;
    loop
        invariant
            it.remaining() == total.subrange(v@.len() as int, total.len() as int),
            v@ == total.subrange(0, v@.len() as int),
            v@.len() <= total.len(),
            total == s@,
        decreases total.len() - v@.len(),
    {
        let ghost before = it;
        let next = it.next();
        proof {
            vstd::string::next_postcondition(&before, &it, next);
        }
        match next {
            Some(c) => {
                proof {
                    assert(total.subrange(v@.len() as int, total.len() as int)[0] == total[v@.len() as int]);
                }
                v.push(c);
                proof {
                    assert(it.remaining() =~= total.subrange(v@.len() as int, total.len() as int));
                    assert(v@ =~= total.subrange(0, v@.len() as int));
                }
            },
            None => {
                proof {
                    assert(v@ =~= total);
                }
                return v;
            },
        }
    }
}

/// `String::push`: appends one character.
#[verifier::external_body]
pub(crate) fn push_char(out: &mut String, c: char)
    ensures
        final(out)@ == old(out)@.push(c),
{
    out.push(c);
}

/// `char::from_u32`: the character with scalar value `x`, if `x` is one.
#[verifier::external_body]
pub(crate) fn char_from_u32(x: u32) -> (r: Option<char>)
    ensures
        vstd::utf8::is_scalar(x) ==> r == Some(x as char),
        !vstd::utf8::is_scalar(x) ==> r is None,
{
    char::from_u32(x)
}

/// The decimal digits of `n`, most significant first.
pub open spec fn decimal(n: nat) -> Seq<char>
    decreases n,
{
    if n < 10 {
        seq![digit_char(n)]
    } else {
        decimal(n / 10).push(digit_char(n % 10))
    }
}

pub open spec fn digit_char(d: nat) -> char {
    if d == 0 { '0' }
    else if d == 1 { '1' }
    else if d == 2 { '2' }
    else if d == 3 { '3' }
    else if d == 4 { '4' }
    else if d == 5 { '5' }
    else if d == 6 { '6' }
    else if d == 7 { '7' }
    else if d == 8 { '8' }
    else { '9' }
}

/// The one-character string of a decimal digit.
pub fn digit_str(d: u64) -> (r: &'static str)
    requires
        d < 10,
    ensures
        r@ == seq![digit_char(d as nat)],
{
    if d == 0 {
        proof { reveal_strlit("0"); }
        "0"
    } else if d == 1 {
        proof { reveal_strlit("1"); }
        "1"
    } else if d == 2 {
        proof { reveal_strlit("2"); }
        "2"
    } else if d == 3 {
        proof { reveal_strlit("3"); }
        "3"
    } else if d == 4 {
        proof { reveal_strlit("4"); }
        "4"
    } else if d == 5 {
        proof { reveal_strlit("5"); }
        "5"
    } else if d == 6 {
        proof { reveal_strlit("6"); }
        "6"
    } else if d == 7 {
        proof { reveal_strlit("7"); }
        "7"
    } else if d == 8 {
        proof { reveal_strlit("8"); }
        "8"
    } else {
        proof { reveal_strlit("9"); }
        "9"
    }
}

/// Appends the decimal form of `n`.
pub fn push_decimal(out: &mut String, n: u64)
    ensures
        final(out)@ == old(out)@ + decimal(n as nat),
    decreases n,
{
    if n < 10 {
        push_str(out, digit_str(n));
    } else {
        push_decimal(out, n / 10);
        push_str(out, digit_str(n % 10));
        proof {
            assert(decimal(n as nat) == decimal((n / 10) as nat).push(digit_char((n % 10) as nat)));
        }
    }
}

} // verus!
