//! Scan-wide search over the arena tree: a query language of name terms,
//! `ext:pdf` and `>100mb`-style size filters, and the largest matches.

use vstd::arithmetic::div_mod::{lemma_div_denominator, lemma_hoist_over_denominator};
use vstd::prelude::*;
use vstd::string::StringSliceAdditionalSpecFns;

use crate::category::{extension_key, key_of};
use crate::interner::str_eq;
use crate::rank::{distinct_ids, listed_before, min_len, ranks_below, top_hits};
use crate::sums::{lemma_sum_zero, sum_to};
use crate::text::{bytes_of, chars_of, push_char};
use crate::tree::{NodeId, Tree};

verus! {

broadcast use vstd::utf8::group_utf8_lib;

/// Unicode White_Space, the separators between query tokens.
pub open spec fn is_ws(c: char) -> bool {
    let v = c as u32;
    ||| 0x09 <= v <= 0x0D
    ||| v == 0x20
    ||| v == 0x85
    ||| v == 0xA0
    ||| v == 0x1680
    ||| 0x2000 <= v <= 0x200A
    ||| v == 0x2028
    ||| v == 0x2029
    ||| v == 0x202F
    ||| v == 0x205F
    ||| v == 0x3000
}

fn is_ws_exec(c: char) -> (r: bool)
    ensures
        r == is_ws(c),
{
    let v = c as u32;
    (0x09 <= v && v <= 0x0D) || v == 0x20 || v == 0x85 || v == 0xA0 || v == 0x1680 || (0x2000 <= v && v <= 0x200A)
        || v == 0x2028 || v == 0x2029 || v == 0x202F || v == 0x205F || v == 0x3000
}

/// Length of the leading run of non-separators.
pub open spec fn run_len(s: Seq<char>) -> nat
    decreases s.len(),
{
    if s.len() == 0 || is_ws(s[0]) {
        0
    } else {
        1 + run_len(s.drop_first())
    }
}

/// The whitespace-separated tokens of `s`.
pub open spec fn tokens(s: Seq<char>) -> Seq<Seq<char>>
    decreases s.len(),
{
    if s.len() == 0 {
        Seq::empty()
    } else if is_ws(s[0]) {
        tokens(s.drop_first())
    } else {
        let r = run_len(s);
        proof {
            lemma_run_len(s);
        }
        seq![s.subrange(0, r as int)] + tokens(s.subrange(r as int, s.len() as int))
    }
}

pub proof fn lemma_run_len(s: Seq<char>)
    ensures
        run_len(s) <= s.len(),
        forall|i: int| 0 <= i < run_len(s) ==> !is_ws(#[trigger] s[i]),
        run_len(s) < s.len() ==> is_ws(s[run_len(s) as int]),
    decreases s.len(),
{
    if s.len() > 0 && !is_ws(s[0]) {
        lemma_run_len(s.drop_first());
        assert forall|i: int| 0 <= i < run_len(s) implies !is_ws(#[trigger] s[i]) by {
            if i > 0 {
                assert(s[i] == s.drop_first()[i - 1]);
            }
        }
    }
}

/// A run of non-separators followed by a separator (or the end) is the
/// run the token grammar sees.
proof fn lemma_run_len_of(s: Seq<char>, k: int)
    requires
        0 <= k <= s.len(),
        forall|i: int| 0 <= i < k ==> !is_ws(#[trigger] s[i]),
        k < s.len() ==> is_ws(s[k]),
    ensures
        run_len(s) == k,
    decreases s.len(),
{
    if k > 0 {
        assert forall|i: int| 0 <= i < k - 1 implies !is_ws(#[trigger] s.drop_first()[i]) by {
            assert(s.drop_first()[i] == s[i + 1]);
        }
        if k < s.len() {
            assert(s.drop_first()[k - 1] == s[k]);
        }
        lemma_run_len_of(s.drop_first(), k - 1);
    }
}

/// What `str::to_lowercase` gives for a text.
pub uninterp spec fn lowercase(s: Seq<char>) -> Seq<char>;

/// std's `str::to_lowercase`: the Unicode lowercase mapping of `s`.
#[verifier::external_body]
fn to_lower(s: &str) -> (r: String)
    ensures
        r@ == lowercase(s@),
{
    s.to_lowercase()
}

/// `s` without its leading dots.
pub open spec fn trim_dots(s: Seq<char>) -> Seq<char>
    decreases s.len(),
{
    if s.len() > 0 && s[0] == '.' {
        trim_dots(s.drop_first())
    } else {
        s
    }
}

pub open spec fn is_digit(c: char) -> bool {
    '0' <= c <= '9'
}

/// Index of the first character that is neither a digit nor a dot.
pub open spec fn num_end(s: Seq<char>) -> nat
    decreases s.len(),
{
    if s.len() == 0 || !(is_digit(s[0]) || s[0] == '.') {
        0
    } else {
        1 + num_end(s.drop_first())
    }
}

pub open spec fn dots(s: Seq<char>) -> nat
    decreases s.len(),
{
    if s.len() == 0 {
        0
    } else {
        (if s.last() == '.' { 1nat } else { 0nat }) + dots(s.drop_last())
    }
}

/// The decimal value of a digit string.
pub open spec fn digits_value(s: Seq<char>) -> nat
    decreases s.len(),
{
    if s.len() == 0 {
        0
    } else {
        digits_value(s.drop_last()) * 10 + ((s.last() as u32) - ('0' as u32)) as nat
    }
}

pub open spec fn pow10(n: nat) -> nat
    decreases n,
{
    if n == 0 {
        1
    } else {
        10 * pow10((n - 1) as nat)
    }
}

/// The position of the first dot, if any.
pub open spec fn dot_at(s: Seq<char>) -> Option<int>
    decreases s.len(),
{
    if s.len() == 0 {
        None
    } else {
        match dot_at(s.drop_last()) {
            Some(i) => Some(i),
            None => if s.last() == '.' { Some(s.len() - 1) } else { None },
        }
    }
}

/// A number made of digits and at most one dot, with at least one digit:
/// its integer digits and its fraction digits.
pub open spec fn decimal_parts(num: Seq<char>) -> Option<(Seq<char>, Seq<char>)> {
    if dots(num) > 1 || num.len() == dots(num) {
        None
    } else {
        match dot_at(num) {
            None => Some((num, Seq::empty())),
            Some(i) => Some((num.subrange(0, i), num.subrange(i + 1, num.len() as int))),
        }
    }
}

/// The byte multiplier a unit stands for (ASCII case ignored).
pub open spec fn unit_mult(u: Seq<char>) -> Option<nat> {
    let l = crate::category::lower_all(u);
    if l == Seq::<char>::empty() || l == seq!['b'] {
        Some(1)
    } else if l == seq!['k'] || l == seq!['k', 'b'] {
        Some(0x400)
    } else if l == seq!['m'] || l == seq!['m', 'b'] {
        Some(0x10_0000)
    } else if l == seq!['g'] || l == seq!['g', 'b'] {
        Some(0x4000_0000)
    } else if l == seq!['t'] || l == seq!['t', 'b'] {
        Some(0x100_0000_0000)
    } else {
        None
    }
}

/// `value * mult`, rounded down and capped at `u64::MAX`, for the
/// decimal `int_part.frac_part`.
pub open spec fn scaled(int_part: Seq<char>, frac_part: Seq<char>, mult: nat) -> u64 {
    let v = digits_value(int_part) * mult + (digits_value(frac_part) * mult) / pow10(frac_part.len());
    if v > u64::MAX {
        u64::MAX
    } else {
        v as u64
    }
}

/// `>N`, `>=N` with an optional unit (`b`, `k`/`kb`, ... `t`/`tb`): the
/// size in bytes; `None` when the token is no size filter.
pub open spec fn size_filter(tok: Seq<char>) -> Option<u64> {
    let rest = if tok.len() >= 2 && tok[0] == '>' && tok[1] == '=' {
        Some(tok.subrange(2, tok.len() as int))
    } else if tok.len() >= 1 && tok[0] == '>' {
        Some(tok.subrange(1, tok.len() as int))
    } else {
        None
    };
    match rest {
        None => None,
        Some(r) => {
            let u = num_end(r) as int;
            match (decimal_parts(r.subrange(0, u)), unit_mult(r.subrange(u, r.len() as int))) {
                (Some((ip, fp)), Some(mult)) => Some(scaled(ip, fp, mult)),
                _ => None,
            }
        },
    }
}

proof fn lemma_digits_lead(s: Seq<char>)
    requires
        s.len() > 0,
    ensures
        digits_value(s) == ((s[0] as u32) - ('0' as u32)) as nat * pow10((s.len() - 1) as nat) + digits_value(s.drop_first()),
    decreases s.len(),
{
    if s.len() > 1 {
        let s1 = s.drop_last();
        let t1 = s.drop_first();
        lemma_digits_lead(s1);
        assert(s1.drop_first() =~= t1.drop_last());
        assert(t1.last() == s.last());
        assert(s1[0] == s[0]);
        let d0 = ((s[0] as u32) - ('0' as u32)) as nat;
        let dl = ((s.last() as u32) - ('0' as u32)) as nat;
        let k = (s.len() - 2) as nat;
        let pk = pow10(k);
        let x = digits_value(t1.drop_last());
        assert(digits_value(s) == digits_value(s1) * 10 + dl);
        assert(digits_value(s1) == d0 * pk + x);
        assert(digits_value(t1) == x * 10 + dl);
        assert(pow10((k + 1) as nat) == 10 * pk);
        assert((d0 * pk + x) * 10 + dl == d0 * (10 * pk) + (x * 10 + dl)) by (nonlinear_arith);
        assert((s.len() - 1) as nat == (k + 1) as nat);
    } else {
        assert(s.drop_last() =~= Seq::<char>::empty());
        assert(s.drop_first() =~= Seq::<char>::empty());
        assert(s.last() == s[0]);
        assert(pow10(0) == 1);
        let d0 = ((s[0] as u32) - ('0' as u32)) as nat;
        assert(d0 * 1 == d0);
    }
}

proof fn lemma_digits_bound(s: Seq<char>)
    requires
        forall|i: int| 0 <= i < s.len() ==> is_digit(#[trigger] s[i]),
    ensures
        digits_value(s) < pow10(s.len()),
    decreases s.len(),
{
    if s.len() > 0 {
        lemma_digits_bound(s.drop_last());
        let v = digits_value(s.drop_last());
        let p = pow10((s.len() - 1) as nat);
        assert(is_digit(s.last()));
        assert(v * 10 + 9 < p * 10) by (nonlinear_arith)
            requires
                v < p,
        ;
    }
}

proof fn lemma_pow10_pos(n: nat)
    ensures
        pow10(n) >= 1,
    decreases n,
{
    if n > 0 {
        lemma_pow10_pos((n - 1) as nat);
    }
}

/// One Horner step of the fraction: `d` in front of `v`'s `k` digits.
proof fn lemma_frac_step(d: nat, v: nat, k: nat, m: nat)
    ensures
        ((d * pow10(k) + v) * m) / pow10(k + 1) == (d * m + (v * m) / pow10(k)) / 10,
{
    lemma_pow10_pos(k);
    let p = pow10(k);
    assert(pow10(k + 1) == 10 * p);
    assert((d * p + v) * m == v * m + (d * m) * p) by (nonlinear_arith);
    lemma_hoist_over_denominator((v * m) as int, (d * m) as int, p);
    lemma_div_denominator(((d * p + v) * m) as int, p as int, 10);
    assert(p * 10 == 10 * p);
}

/// The multiplier of the unit `tok[u..]`.
fn unit_multiplier(tok: &Vec<char>, u: usize) -> (r: Option<u128>)
    requires
        u <= tok@.len(),
    ensures
        r matches Some(m) ==> unit_mult(tok@.subrange(u as int, tok@.len() as int)) == Some(m as nat) && 1 <= m <= 0x100_0000_0000,
        r is None ==> unit_mult(tok@.subrange(u as int, tok@.len() as int)) is None,
{
    let ghost t = tok@;
    let n = tok.len();
    let unit_len = n - u;
    let ghost l = crate::category::lower_all(t.subrange(u as int, n as int));
    if unit_len > 2 {
        proof {
            assert(l.len() > 2);
        }
        return None;
    }
    let c0 = if unit_len >= 1 { lower_ascii(tok[u]) } else { ' ' };
    let c1 = if unit_len >= 2 { lower_ascii(tok[u + 1]) } else { ' ' };
    proof {
        if unit_len >= 1 {
            assert(l[0] == c0);
        }
        if unit_len >= 2 {
            assert(l[1] == c1);
        }
        if unit_len == 0 {
            assert(l =~= Seq::<char>::empty());
        } else if unit_len == 1 {
            assert(l =~= seq![c0]);
        } else {
            assert(l =~= seq![c0, c1]);
        }
    }
    if unit_len == 0 || (unit_len == 1 && c0 == 'b') {
        Some(1)
    } else if (unit_len == 1 && c0 == 'k') || (unit_len == 2 && c0 == 'k' && c1 == 'b') {
        Some(0x400)
    } else if (unit_len == 1 && c0 == 'm') || (unit_len == 2 && c0 == 'm' && c1 == 'b') {
        Some(0x10_0000)
    } else if (unit_len == 1 && c0 == 'g') || (unit_len == 2 && c0 == 'g' && c1 == 'b') {
        Some(0x4000_0000)
    } else if (unit_len == 1 && c0 == 't') || (unit_len == 2 && c0 == 't' && c1 == 'b') {
        Some(0x100_0000_0000)
    } else {
        proof {
            if unit_len == 1 {
                assert(seq![c0] != seq!['b'] && seq![c0] != seq!['k'] && seq![c0] != seq!['m'] && seq![c0] != seq!['g'] && seq![c0] != seq!['t']) by {
                    if seq![c0] == seq!['b'] { assert(seq![c0][0] == 'b'); }
                    if seq![c0] == seq!['k'] { assert(seq![c0][0] == 'k'); }
                    if seq![c0] == seq!['m'] { assert(seq![c0][0] == 'm'); }
                    if seq![c0] == seq!['g'] { assert(seq![c0][0] == 'g'); }
                    if seq![c0] == seq!['t'] { assert(seq![c0][0] == 't'); }
                }
            } else if unit_len == 2 {
                let w = seq![c0, c1];
                assert(w != seq!['k', 'b'] && w != seq!['m', 'b'] && w != seq!['g', 'b'] && w != seq!['t', 'b']) by {
                    if w == seq!['k', 'b'] { assert(w[0] == 'k' && w[1] == 'b'); }
                    if w == seq!['m', 'b'] { assert(w[0] == 'm' && w[1] == 'b'); }
                    if w == seq!['g', 'b'] { assert(w[0] == 'g' && w[1] == 'b'); }
                    if w == seq!['t', 'b'] { assert(w[0] == 't' && w[1] == 'b'); }
                }
                assert(w.len() != 0 && w.len() != 1);
            }
        }
        None
    }
}

/// The number of dots in `tok[from..to]`, and where the first one is.
fn scan_dots(tok: &Vec<char>, from: usize, to: usize) -> (r: (usize, Option<usize>))
    requires
        from <= to <= tok@.len(),
    ensures
        r.0 == dots(tok@.subrange(from as int, to as int)),
        r.0 <= to - from,
        r.1 matches Some(d) ==> from <= d < to && dot_at(tok@.subrange(from as int, to as int)) == Some(d - from) && tok@[d as int] == '.',
        r.1 is None ==> dot_at(tok@.subrange(from as int, to as int)) is None,
{
    let ghost t = tok@;
    let mut ndots: usize = 0;
    let mut first_dot: Option<usize> = None;
    let mut i = from;
    while i < to
        invariant
            t == tok@,
            from <= i <= to <= t.len(),
            ndots == dots(t.subrange(from as int, i as int)),
            ndots <= i - from,
            first_dot matches Some(d) ==> from <= d < i && dot_at(t.subrange(from as int, i as int)) == Some(d - from) && t[d as int] == '.',
            first_dot is None ==> dot_at(t.subrange(from as int, i as int)) is None,
        decreases to - i,
    {
        proof {
            let p = t.subrange(from as int, i + 1);
            assert(p.drop_last() =~= t.subrange(from as int, i as int));
            assert(p.last() == t[i as int]);
        }
        if tok[i] == '.' {
            ndots = ndots + 1;
            if first_dot.is_none() {
                first_dot = Some(i);
            }
        }
        i = i + 1;
    }
    (ndots, first_dot)
}

/// The value of the digits `tok[from..to]`, capped at `2^64`.
fn int_capped(tok: &Vec<char>, from: usize, to: usize) -> (c: u128)
    requires
        from <= to <= tok@.len(),
        forall|x: int| from <= x < to ==> is_digit(#[trigger] tok@[x]),
    ensures
        c == (if digits_value(tok@.subrange(from as int, to as int)) < 0x1_0000_0000_0000_0000 {
            digits_value(tok@.subrange(from as int, to as int))
        } else {
            0x1_0000_0000_0000_0000nat
        }),
{
    let ghost t = tok@;
    let cap: u128 = 0x1_0000_0000_0000_0000;
    let mut c: u128 = 0;
    let mut j = from;
    proof {
        assert(t.subrange(from as int, from as int) =~= Seq::<char>::empty());
    }
    while j < to
        invariant
            t == tok@,
            from <= j <= to <= t.len(),
            cap == 0x1_0000_0000_0000_0000,
            forall|x: int| from <= x < to ==> is_digit(#[trigger] t[x]),
            c == (if digits_value(t.subrange(from as int, j as int)) < cap { digits_value(t.subrange(from as int, j as int)) } else { cap as nat }),
        decreases to - j,
    {
        let ghost p = t.subrange(from as int, j + 1);
        proof {
            assert(p.drop_last() =~= t.subrange(from as int, j as int));
            assert(p.last() == t[j as int]);
            assert(is_digit(t[j as int]));
        }
        let d = (tok[j] as u32 - '0' as u32) as u128;
        let next = c * 10 + d;
        c = if next < cap { next } else { cap };
        j = j + 1;
    }
    c
}

/// `floor(0.d1d2...dk * mult)` for the digits `tok[from..to]`.
fn frac_scaled(tok: &Vec<char>, from: usize, to: usize, mult: u128) -> (acc: u128)
    requires
        from <= to <= tok@.len(),
        forall|x: int| from <= x < to ==> is_digit(#[trigger] tok@[x]),
        1 <= mult <= 0x100_0000_0000,
    ensures
        acc == (digits_value(tok@.subrange(from as int, to as int)) * (mult as nat)) / pow10((to - from) as nat),
        acc <= mult,
{
    let ghost t = tok@;
    let mut acc: u128 = 0;
    let mut k = to;
    proof {
        assert(t.subrange(to as int, to as int) =~= Seq::<char>::empty());
    }
    while k > from
        invariant
            t == tok@,
            from <= k <= to <= t.len(),
            1 <= mult <= 0x100_0000_0000,
            forall|x: int| from <= x < to ==> is_digit(#[trigger] t[x]),
            acc == (digits_value(t.subrange(k as int, to as int)) * (mult as nat)) / pow10((to - k) as nat),
            acc <= mult,
        decreases k,
    {
        k = k - 1;
        proof {
            assert(is_digit(t[k as int]));
        }
        let d = (tok[k] as u32 - '0' as u32) as u128;
        proof {
            let s2 = t.subrange(k as int, to as int);
            lemma_digits_lead(s2);
            assert(s2.drop_first() =~= t.subrange(k + 1, to as int));
            assert(s2[0] == t[k as int]);
            lemma_frac_step(d as nat, digits_value(t.subrange(k + 1, to as int)), (to - k - 1) as nat, mult as nat);
            assert((to - k - 1) as nat + 1 == (to - k) as nat);
            assert((d * mult + acc) / 10 <= mult) by (nonlinear_arith)
                requires
                    d <= 9,
                    acc <= mult,
            ;
        }
        acc = (d * mult + acc) / 10;
    }
    acc
}

/// The number of bytes a `>N[unit]` token asks for, if it is one.
#[verifier::rlimit(40)]
fn parse_min_size(tok: &Vec<char>) -> (r: Option<u64>)
    ensures
        r == size_filter(tok@),
{
    let ghost t = tok@;
    let n = tok.len();
    let start: usize = if n >= 2 && tok[0] == '>' && tok[1] == '=' {
        2
    } else if n >= 1 && tok[0] == '>' {
        1
    } else {
        return None;
    };
    let ghost rest = t.subrange(start as int, n as int);
    let mut u = start;
    while u < n && (('0' <= tok[u] && tok[u] <= '9') || tok[u] == '.')
        invariant
            t == tok@,
            start <= u <= n,
            n == t.len(),
            forall|i: int| start <= i < u ==> is_digit(#[trigger] t[i]) || t[i] == '.',
        decreases n - u,
    {
        u = u + 1;
    }
    proof {
        assert forall|i: int| 0 <= i < u - start implies is_digit(#[trigger] rest[i]) || rest[i] == '.' by {
            assert(rest[i] == t[i + start]);
        }
        if u < n {
            assert(rest[u - start] == t[u as int]);
        }
        lemma_num_end_of(rest, u - start);
        assert(rest.subrange(0, u - start) =~= t.subrange(start as int, u as int));
        assert(rest.subrange(u - start, rest.len() as int) =~= t.subrange(u as int, n as int));
    }
    let ghost num = t.subrange(start as int, u as int);
    let mult = match unit_multiplier(tok, u) {
        None => {
            return None;
        },
        Some(m) => m,
    };
    let (ndots, first_dot) = scan_dots(tok, start, u);
    if ndots > 1 || u - start == ndots {
        return None;
    }
    let int_end = match first_dot {
        Some(d) => d,
        None => u,
    };
    let frac_start = match first_dot {
        Some(d) => d + 1,
        None => u,
    };
    let ghost ip = t.subrange(start as int, int_end as int);
    let ghost fp = t.subrange(frac_start as int, u as int);
    proof {
        match first_dot {
            Some(d) => {
                assert(num.subrange(0, d - start) =~= ip);
                assert(num.subrange(d - start + 1, num.len() as int) =~= fp);
                assert(num[d - start] == '.');
                lemma_dot_counted(num, d - start);
                lemma_one_dot(num, d - start);
                assert forall|x: int| start <= x < u && x != d implies is_digit(#[trigger] t[x]) by {
                    assert(num[x - start] == t[x]);
                }
            },
            None => {
                assert(fp =~= Seq::<char>::empty());
                assert(ip =~= num);
                lemma_no_dot(num);
                assert forall|x: int| start <= x < u implies is_digit(#[trigger] t[x]) by {
                    assert(num[x - start] == t[x]);
                }
            },
        }
        assert(decimal_parts(num) == Some((ip, fp)));
    }
    let c = int_capped(tok, start, int_end);
    let acc = frac_scaled(tok, frac_start, u, mult);
    proof {
        let dv = digits_value(ip);
        let cap: nat = 0x1_0000_0000_0000_0000;
        if dv >= cap {
            assert(dv * (mult as nat) >= cap) by (nonlinear_arith)
                requires
                    dv >= cap,
                    mult >= 1,
            ;
        }
        assert(c * mult <= 0x1_0000_0000_0000_0000 * 0x100_0000_0000) by (nonlinear_arith)
            requires
                c <= 0x1_0000_0000_0000_0000,
                mult <= 0x100_0000_0000,
        ;
        assert(c * mult >= c) by (nonlinear_arith)
            requires
                mult >= 1,
        ;
    }
    let v = c * mult + acc;
    if v > 0xFFFF_FFFF_FFFF_FFFFu128 {
        Some(u64::MAX)
    } else {
        Some(v as u64)
    }
}

pub(crate) fn lower_ascii(c: char) -> (r: char)
    ensures
        r == crate::category::ascii_lower(c),
{
    if 'A' <= c && c <= 'Z' {
        crate::text::char_from_u32(c as u32 + 32).unwrap()
    } else {
        c
    }
}

proof fn lemma_num_end_of(s: Seq<char>, k: int)
    requires
        0 <= k <= s.len(),
        forall|i: int| 0 <= i < k ==> is_digit(#[trigger] s[i]) || s[i] == '.',
        k < s.len() ==> !(is_digit(s[k]) || s[k] == '.'),
    ensures
        num_end(s) == k,
    decreases s.len(),
{
    if k > 0 {
        assert forall|i: int| 0 <= i < k - 1 implies is_digit(#[trigger] s.drop_first()[i]) || s.drop_first()[i] == '.' by {
            assert(s.drop_first()[i] == s[i + 1]);
        }
        if k < s.len() {
            assert(s.drop_first()[k - 1] == s[k]);
        }
        lemma_num_end_of(s.drop_first(), k - 1);
    }
}

/// With its only dot at `d`, a number splits there.
proof fn lemma_one_dot(num: Seq<char>, d: int)
    requires
        0 <= d < num.len(),
        num[d] == '.',
        dots(num) == 1,
        dot_at(num) == Some(d),
    ensures
        forall|i: int| 0 <= i < num.len() && i != d ==> num[i] != '.',
{
    assert forall|i: int| 0 <= i < num.len() && i != d implies num[i] != '.' by {
        if num[i] == '.' {
            lemma_two_dots(num, d, i);
        }
    }
}

proof fn lemma_two_dots(num: Seq<char>, d: int, e: int)
    requires
        0 <= d < num.len(),
        0 <= e < num.len(),
        d != e,
        num[d] == '.',
        num[e] == '.',
    ensures
        dots(num) >= 2,
    decreases num.len(),
{
    let l = num.len() - 1;
    if d == l || e == l {
        let other = if d == l { e } else { d };
        assert(num.drop_last()[other] == '.');
        lemma_dot_counted(num.drop_last(), other);
    } else {
        assert(num.drop_last()[d] == '.');
        assert(num.drop_last()[e] == '.');
        lemma_two_dots(num.drop_last(), d, e);
    }
}

proof fn lemma_dot_counted(num: Seq<char>, d: int)
    requires
        0 <= d < num.len(),
        num[d] == '.',
    ensures
        dots(num) >= 1,
    decreases num.len(),
{
    if d < num.len() - 1 {
        assert(num.drop_last()[d] == '.');
        lemma_dot_counted(num.drop_last(), d);
    }
}

proof fn lemma_no_dot(num: Seq<char>)
    requires
        dot_at(num) is None,
    ensures
        forall|i: int| 0 <= i < num.len() ==> num[i] != '.',
    decreases num.len(),
{
    if num.len() > 0 {
        lemma_no_dot(num.drop_last());
        assert forall|i: int| 0 <= i < num.len() implies num[i] != '.' by {
            if i < num.len() - 1 {
                assert(num.drop_last()[i] == num[i]);
            }
        }
    }
}

/// A parsed query: lowercased name terms (all must occur), an extension
/// (lowercased, without the dot) and a minimum size.
#[derive(Clone, Debug, Default, PartialEq)]
pub struct SearchQuery {
    pub name_terms: Vec<String>,
    /// Lowercased extension without the dot.
    pub ext: Option<String>,
    pub min_size: u64,
}

/// A query's meaning: its terms, its extension, its minimum size.
pub type QueryView = (Seq<Seq<char>>, Option<Seq<char>>, u64);

pub open spec fn terms_view(v: Seq<String>) -> Seq<Seq<char>> {
    v.map_values(|t: String| t@)
}

pub open spec fn opt_view(o: Option<String>) -> Option<Seq<char>> {
    match o {
        Some(s) => Some(s@),
        None => None,
    }
}

impl SearchQuery {
    pub open spec fn view(&self) -> QueryView {
        (terms_view(self.name_terms@), opt_view(self.ext), self.min_size)
    }
}

/// `ext:` as characters.
pub open spec fn ext_prefix() -> Seq<char> {
    seq!['e', 'x', 't', ':']
}

/// What one token contributes: `ext:X` sets the extension, a size filter
/// sets the minimum, anything else is a name term.
pub open spec fn apply_token(q: QueryView, tok: Seq<char>) -> QueryView {
    if tok.len() >= 4 && tok.subrange(0, 4) == ext_prefix() {
        (q.0, Some(lowercase(trim_dots(tok.subrange(4, tok.len() as int)))), q.2)
    } else {
        match size_filter(tok) {
            Some(b) => (q.0, q.1, b),
            None => (q.0.push(lowercase(tok)), q.1, q.2),
        }
    }
}

pub open spec fn query_of(toks: Seq<Seq<char>>) -> QueryView
    decreases toks.len(),
{
    if toks.len() == 0 {
        (Seq::empty(), None, 0)
    } else {
        apply_token(query_of(toks.drop_last()), toks.last())
    }
}

/// The text of `v[from..to]`.
fn string_of(v: &Vec<char>, from: usize, to: usize) -> (r: String)
    requires
        from <= to <= v@.len(),
    ensures
        r@ == v@.subrange(from as int, to as int),
{
    let mut out = String::new();
    let mut i = from;
    while i < to
        invariant
            from <= i <= to <= v@.len(),
            out@ == v@.subrange(from as int, i as int),
        decreases to - i,
    {
        push_char(&mut out, v[i]);
        i = i + 1;
        proof {
            assert(out@ =~= v@.subrange(from as int, i as int));
        }
    }
    out
}

proof fn lemma_trim_dots(s: Seq<char>, k: int)
    requires
        0 <= k <= s.len(),
        forall|i: int| 0 <= i < k ==> #[trigger] s[i] == '.',
        k < s.len() ==> s[k] != '.',
    ensures
        trim_dots(s) == s.subrange(k, s.len() as int),
    decreases k,
{
    if k > 0 {
        assert forall|i: int| 0 <= i < k - 1 implies #[trigger] s.drop_first()[i] == '.' by {
            assert(s.drop_first()[i] == s[i + 1]);
        }
        if k < s.len() {
            assert(s.drop_first()[k - 1] == s[k]);
        }
        lemma_trim_dots(s.drop_first(), k - 1);
        assert(s.drop_first().subrange(k - 1, s.len() - 1) =~= s.subrange(k, s.len() as int));
    } else {
        assert(s.subrange(0, s.len() as int) =~= s);
    }
}

impl SearchQuery {
    /// Tokens: name terms, `ext:pdf`, and `>100mb`/`>=1.5gb` size filters.
    pub fn parse(text: &str) -> (q: SearchQuery)
        ensures
            q.view() == query_of(tokens(text@)),
    {
        let chars = chars_of(text);
        let n = chars.len();
        let mut q = SearchQuery { name_terms: Vec::new(), ext: None, min_size: 0 };
        let ghost mut done: Seq<Seq<char>> = Seq::empty();
        let mut i: usize = 0;
        proof {
            assert(chars@.subrange(0, n as int) =~= chars@);
            assert(q.view().0 =~= Seq::<Seq<char>>::empty());
        }
        while i < n
            invariant
                n == chars@.len(),
                chars@ == text@,
                i <= n,
                tokens(text@) == done + tokens(chars@.subrange(i as int, n as int)),
                q.view() == query_of(done),
            decreases n - i,
        {
            let ghost rest = chars@.subrange(i as int, n as int);
            if is_ws_exec(chars[i]) {
                proof {
                    assert(rest[0] == chars@[i as int]);
                    assert(rest.drop_first() =~= chars@.subrange(i + 1, n as int));
                }
                i = i + 1;
            } else {
                let mut j = i;
                while j < n && !is_ws_exec(chars[j])
                    invariant
                        i <= j <= n,
                        n == chars@.len(),
                        forall|x: int| i <= x < j ==> !is_ws(#[trigger] chars@[x]),
                    decreases n - j,
                {
                    j = j + 1;
                }
                let ghost tok = chars@.subrange(i as int, j as int);
                proof {
                    assert(rest[0] == chars@[i as int]);
                    assert forall|x: int| 0 <= x < j - i implies !is_ws(#[trigger] rest[x]) by {
                        assert(rest[x] == chars@[x + i]);
                    }
                    if j < n {
                        assert(rest[j - i] == chars@[j as int]);
                    }
                    lemma_run_len_of(rest, j - i);
                    assert(rest.subrange(0, j - i) =~= tok);
                    assert(rest.subrange(j - i, rest.len() as int) =~= chars@.subrange(j as int, n as int));
                    assert(done.push(tok).drop_last() =~= done);
                    assert(done.push(tok).last() == tok);
                    assert(done + (seq![tok] + tokens(chars@.subrange(j as int, n as int))) =~= done.push(tok) + tokens(chars@.subrange(j as int, n as int)));
                }
                let is_ext = j - i >= 4 && chars[i] == 'e' && chars[i + 1] == 'x' && chars[i + 2] == 't' && chars[i + 3] == ':';
                proof {
                    if j - i >= 4 {
                        if is_ext {
                            assert(tok.subrange(0, 4) =~= ext_prefix());
                        } else {
                            assert(tok.subrange(0, 4) != ext_prefix()) by {
                                if tok.subrange(0, 4) == ext_prefix() {
                                    assert(tok.subrange(0, 4)[0] == 'e');
                                    assert(tok.subrange(0, 4)[1] == 'x');
                                    assert(tok.subrange(0, 4)[2] == 't');
                                    assert(tok.subrange(0, 4)[3] == ':');
                                }
                            }
                        }
                    }
                }
                if is_ext {
                    let mut k = i + 4;
                    while k < j && chars[k] == '.'
                        invariant
                            i + 4 <= k <= j <= n,
                            n == chars@.len(),
                            forall|x: int| i + 4 <= x < k ==> #[trigger] chars@[x] == '.',
                        decreases j - k,
                    {
                        k = k + 1;
                    }
                    let body = string_of(&chars, k, j);
                    proof {
                        let e = tok.subrange(4, tok.len() as int);
                        assert forall|x: int| 0 <= x < k - i - 4 implies #[trigger] e[x] == '.' by {
                            assert(e[x] == chars@[x + i + 4]);
                        }
                        if k < j {
                            assert(e[k - i - 4] == chars@[k as int]);
                        }
                        lemma_trim_dots(e, k - i - 4);
                        assert(e.subrange(k - i - 4, e.len() as int) =~= chars@.subrange(k as int, j as int));
                    }
                    q.ext = Some(to_lower(body.as_str()));
                } else {
                    let tv = string_of(&chars, i, j);
                    let ghost tokv = tv@;
                    let tc = chars_of(tv.as_str());
                    match parse_min_size(&tc) {
                        Some(b) => {
                            q.min_size = b;
                        },
                        None => {
                            let ghost old_terms = q.name_terms@;
                            q.name_terms.push(to_lower(tv.as_str()));
                            proof {
                                assert(terms_view(q.name_terms@) =~= terms_view(old_terms).push(lowercase(tok)));
                            }
                        },
                    }
                }
                proof {
                    done = done.push(tok);
                }
                i = j;
            }
        }
        proof {
            assert(chars@.subrange(n as int, n as int) =~= Seq::<char>::empty());
            assert(done + Seq::<Seq<char>>::empty() =~= done);
        }
        q
    }

    pub open spec fn spec_is_empty(&self) -> bool {
        self.name_terms@.len() == 0 && self.ext is None && self.min_size == 0
    }

    pub fn is_empty(&self) -> (r: bool)
        ensures
            r == self.spec_is_empty(),
    {
        self.name_terms.len() == 0 && self.ext.is_none() && self.min_size == 0
    }
}

/// ASCII letters lowered; other bytes kept.
pub open spec fn lower_byte(b: u8) -> u8 {
    if 0x41 <= b <= 0x5A {
        (b + 32) as u8
    } else {
        b
    }
}

/// `n` occurs in `h` at `i`, ignoring ASCII case.
pub open spec fn window_eq(h: Seq<u8>, i: int, n: Seq<u8>) -> bool {
    forall|j: int| 0 <= j < n.len() ==> lower_byte(#[trigger] h[i + j]) == lower_byte(n[j])
}

/// ASCII-case-insensitive substring; non-ASCII bytes match exactly.
pub open spec fn contains_ci(h: Seq<u8>, n: Seq<u8>) -> bool {
    n.len() == 0 || exists|i: int| 0 <= i && i + n.len() <= h.len() && #[trigger] window_eq(h, i, n)
}

fn lower_byte_exec(b: u8) -> (r: u8)
    ensures
        r == lower_byte(b),
{
    if 0x41 <= b && b <= 0x5A {
        b + 32
    } else {
        b
    }
}

fn contains_ci_exec(haystack: &str, needle: &str) -> (r: bool)
    ensures
        r == contains_ci(haystack.spec_bytes(), needle.spec_bytes()),
{
    let h = haystack.as_bytes();
    let nd = needle.as_bytes();
    let ghost hb = h@;
    let ghost nb = nd@;
    if nd.len() == 0 {
        return true;
    }
    if nd.len() > h.len() {
        proof {
            assert forall|i: int| 0 <= i && i + nb.len() <= hb.len() implies !#[trigger] window_eq(hb, i, nb) by {}
        }
        return false;
    }
    let hl = h.len();
    let mut i: usize = 0;
    while i <= h.len() - nd.len()
        invariant
            hb == h@,
            nb == nd@,
            hl == hb.len(),
            hb == haystack.spec_bytes(),
            nb == needle.spec_bytes(),
            nb.len() <= hb.len(),
            i <= hb.len() - nb.len() + 1,
            forall|x: int| 0 <= x < i ==> !#[trigger] window_eq(hb, x, nb),
        decreases hb.len() - i,
    {
        let mut j: usize = 0;
        while j < nd.len() && lower_byte_exec(h[i + j]) == lower_byte_exec(nd[j])
            invariant
                hb == h@,
                nb == nd@,
                hl == hb.len(),
                i + nb.len() <= hb.len(),
                j <= nb.len(),
                forall|y: int| 0 <= y < j ==> lower_byte(#[trigger] hb[i + y]) == lower_byte(nb[y]),
            decreases nb.len() - j,
        {
            j = j + 1;
        }
        if j == nd.len() {
            proof {
                assert(window_eq(hb, i as int, nb));
                assert(hb == haystack.spec_bytes());
                assert(nb == needle.spec_bytes());
                assert(i + nb.len() <= hb.len());
            }
            return true;
        }
        proof {
            assert(lower_byte(hb[i + j]) != lower_byte(nb[j as int]));
        }
        i = i + 1;
    }
    false
}

/// Node `m` satisfies the query's filters.
pub open spec fn matches(t: Tree, q: QueryView, m: int) -> bool {
    &&& t.node_view(m).size >= q.2
    &&& (q.1 matches Some(e) ==> !t.is_dir_at(m) && key_of(t.name_view(m)) == Some(e))
    &&& forall|i: int| 0 <= i < q.0.len() ==> contains_ci(t.name_view(m), bytes_of(#[trigger] q.0[i]))
}

/// A search hit: any node but the root, reached from it (see
/// `Tree::reaches`), that matches.
pub open spec fn is_hit(t: Tree, q: QueryView, hide_system: bool, m: int) -> bool {
    &&& 0 < m < t.slots()
    &&& t.reaches(0, m, hide_system)
    &&& matches(t, q, m)
}

pub open spec fn hit_term(t: Tree, q: QueryView, hide_system: bool) -> spec_fn(int) -> int {
    |m: int| if is_hit(t, q, hide_system, m) { 1int } else { 0 }
}

/// A node's ranking pair: its size, then its id.
pub open spec fn node_pair(t: Tree, m: int) -> (u64, u32) {
    (t.node_view(m).size, m as u32)
}

fn matches_exec(tree: &Tree, id: NodeId, q: &SearchQuery) -> (r: bool)
    requires
        tree.wf(),
        id < tree.slots(),
    ensures
        r == matches(*tree, q.view(), id as int),
{
    let node = tree.node(id);
    if node.size < q.min_size {
        return false;
    }
    let name = tree.name(id);
    match &q.ext {
        Some(ext) => {
            if node.is_dir() {
                return false;
            }
            match extension_key(name) {
                Some(key) => {
                    let same = str_eq(key.as_str(), ext.as_str());
                    proof {
                        vstd::utf8::encode_utf8_decode_utf8(key.view());
                        vstd::utf8::encode_utf8_decode_utf8(ext@);
                    }
                    if !same {
                        return false;
                    }
                },
                None => {
                    return false;
                },
            }
        },
        None => {},
    }
    let mut i: usize = 0;
    while i < q.name_terms.len()
        invariant
            i <= q.name_terms@.len(),
            name.spec_bytes() == tree.name_view(id as int),
            forall|x: int| 0 <= x < i ==> contains_ci(tree.name_view(id as int), bytes_of(#[trigger] terms_view(q.name_terms@)[x])),
        decreases q.name_terms@.len() - i,
    {
        let term = &q.name_terms[i];
        let ts = term.as_str();
        let hit = contains_ci_exec(name, ts);
        if !hit {
            proof {
                let tv = terms_view(q.name_terms@);
                assert(tv[i as int] == term@);
                assert(ts.spec_bytes() == bytes_of(tv[i as int]));
                assert(!contains_ci(tree.name_view(id as int), bytes_of(tv[i as int])));
                assert(q.view().0 == tv);
                assert(!matches(*tree, q.view(), id as int));
            }
            return false;
        }
        proof {
            assert(terms_view(q.name_terms@)[i as int] == term@);
        }
        i = i + 1;
    }
    true
}

#[derive(Clone, Debug, Default)]
pub struct SearchResults {
    /// The largest matches, size descending, at most `cap`.
    pub ids: Vec<NodeId>,
    /// Every match in the tree, not just the returned ones.
    pub total_matches: u64,
}

/// Searches the whole tree; the scan root itself is never a hit. An empty
/// query matches nothing.
pub fn search(tree: &Tree, query: &SearchQuery, cap: usize, hide_system: bool) -> (r: SearchResults)
    requires
        tree.wf(),
    ensures
        (query.spec_is_empty() || tree.slots() == 0) ==> r.ids@.len() == 0 && r.total_matches == 0,
        !(query.spec_is_empty() || tree.slots() == 0) ==> {
            let q = query.view();
            &&& r.total_matches == sum_to(hit_term(*tree, q, hide_system), tree.slots() as int)
            &&& r.ids@.len() == min_len(cap, r.total_matches as nat)
            &&& r.ids@.no_duplicates()
            &&& forall|i: int| 0 <= i < r.ids@.len() ==> is_hit(*tree, q, hide_system, #[trigger] r.ids@[i] as int)
            &&& forall|x: int, i: int| #[trigger] is_hit(*tree, q, hide_system, x) && !r.ids@.contains(x as u32) && 0 <= i < r.ids@.len()
                ==> ranks_below(node_pair(*tree, x), node_pair(*tree, #[trigger] r.ids@[i] as int))
            &&& forall|i: int, j: int| 0 <= i < j < r.ids@.len() ==> listed_before(node_pair(*tree, #[trigger] r.ids@[i] as int), node_pair(*tree, #[trigger] r.ids@[j] as int))
        },
{
    if query.is_empty() || tree.is_empty() {
        return SearchResults { ids: Vec::new(), total_matches: 0 };
    }
    let ghost t = *tree;
    let ghost q = query.view();
    let len = tree.len();
    proof {
        t.lemma_slots_bound();
    }
    let mut hits: Vec<(u64, u32)> = Vec::new();
    let mut total: u64 = 0;
    let mut m: usize = 0;
    while m < len
        invariant
            t == *tree,
            t.wf(),
            q == query.view(),
            len == t.slots(),
            len <= 0xFFFF_FFFF,
            m <= len,
            total == hits@.len(),
            hits@.len() == sum_to(hit_term(t, q, hide_system), m as int),
            hits@.len() <= m,
            forall|i: int| 0 <= i < hits@.len() ==> (#[trigger] hits@[i]).1 < m && is_hit(t, q, hide_system, hits@[i].1 as int)
                && hits@[i] == node_pair(t, hits@[i].1 as int),
            forall|i: int, j: int| 0 <= i < j < hits@.len() ==> (#[trigger] hits@[i]).1 < (#[trigger] hits@[j]).1,
            forall|x: int| 0 <= x < m && #[trigger] is_hit(t, q, hide_system, x) ==> hits@.contains(node_pair(t, x)),
        decreases len - m,
    {
        let id = m as NodeId;
        let ghost old_hits = hits@;
        if id != 0 && tree.reaches_from(0, id, hide_system) && matches_exec(tree, id, query) {
            hits.push((tree.node(id).size, id));
            total = total + 1;
        }
        proof {
            assert forall|x: int| 0 <= x < m + 1 && #[trigger] is_hit(t, q, hide_system, x) implies hits@.contains(node_pair(t, x)) by {
                if x == m {
                    assert(hits@[hits@.len() - 1] == node_pair(t, x));
                } else {
                    assert(old_hits.contains(node_pair(t, x)));
                    let i = choose|i: int| 0 <= i < old_hits.len() && old_hits[i] == node_pair(t, x);
                    assert(hits@[i] == node_pair(t, x));
                }
            }
        }
        m = m + 1;
    }
    proof {
        assert(distinct_ids(hits@)) by {
            assert forall|i: int, j: int| 0 <= i < hits@.len() && 0 <= j < hits@.len() && i != j implies hits@[i].1 != hits@[j].1 by {
                if i < j {
                    assert(hits@[i].1 < hits@[j].1);
                } else {
                    assert(hits@[j].1 < hits@[i].1);
                }
            }
        }
    }
    let top = top_hits(&hits, cap);
    let mut ids: Vec<NodeId> = Vec::new();
    let mut i: usize = 0;
    while i < top.len()
        invariant
            i <= top@.len(),
            ids@.len() == i,
            forall|a: int| 0 <= a < i ==> #[trigger] ids@[a] == top@[a].1,
        decreases top@.len() - i,
    {
        ids.push(top[i].1);
        i = i + 1;
    }
    proof {
        let r = ids@;
        assert forall|a: int| 0 <= a < r.len() implies #[trigger] top@[a] == node_pair(t, r[a] as int) by {
            assert(hits@.contains(top@[a]));
            let k = choose|k: int| 0 <= k < hits@.len() && hits@[k] == top@[a];
            assert(hits@[k] == node_pair(t, hits@[k].1 as int));
        }
        assert forall|a: int, b: int| 0 <= a < r.len() && 0 <= b < r.len() && a != b implies r[a] != r[b] by {
            assert(top@[a] == node_pair(t, r[a] as int));
            assert(top@[b] == node_pair(t, r[b] as int));
        }
        assert forall|a: int| 0 <= a < r.len() implies is_hit(t, q, hide_system, #[trigger] r[a] as int) by {
            assert(hits@.contains(top@[a]));
            let k = choose|k: int| 0 <= k < hits@.len() && hits@[k] == top@[a];
        }
        assert forall|x: int, b: int| #[trigger] is_hit(t, q, hide_system, x) && !r.contains(x as u32) && 0 <= b < r.len()
            implies ranks_below(node_pair(t, x), node_pair(t, #[trigger] r[b] as int)) by {
            assert(hits@.contains(node_pair(t, x)));
            if top@.contains(node_pair(t, x)) {
                let a = choose|a: int| 0 <= a < top@.len() && top@[a] == node_pair(t, x);
                assert(r[a] == x as u32);
            }
            assert(top@.contains(top@[b]));
        }
        assert forall|a: int, b: int| 0 <= a < b < r.len() implies listed_before(node_pair(t, #[trigger] r[a] as int), node_pair(t, #[trigger] r[b] as int)) by {
            assert(top@[a] == node_pair(t, r[a] as int));
            assert(top@[b] == node_pair(t, r[b] as int));
        }
    }
    SearchResults { ids, total_matches: total }
}


/// `x` capped at `u64::MAX`.
pub open spec fn saturate(x: nat) -> u64 {
    if x > u64::MAX { u64::MAX } else { x as u64 }
}

proof fn lemma_digits_prefix(n: Seq<char>, u: Seq<char>)
    requires
        forall|i: int| 0 <= i < n.len() ==> #[trigger] is_digit(n[i]),
        u.len() == 0 || !(is_digit(u[0]) || u[0] == '.'),
    ensures
        num_end(n + u) == n.len(),
        dots(n) == 0,
        dot_at(n) is None,
    decreases n.len(),
{
    if n.len() == 0 {
        assert(n + u =~= u);
    } else {
        assert((n + u).drop_first() =~= n.drop_first() + u);
        assert forall|i: int| 0 <= i < n.drop_first().len() implies #[trigger] is_digit(n.drop_first()[i]) by {
            assert(is_digit(n[i + 1]));
        }
        assert forall|i: int| 0 <= i < n.drop_last().len() implies #[trigger] is_digit(n.drop_last()[i]) by {
            assert(is_digit(n[i]));
        }
        lemma_digits_prefix(n.drop_first(), u);
        lemma_digits_prefix(n.drop_last(), u);
        assert(is_digit(n[0]));
        assert(is_digit(n[n.len() - 1]));
    }
}

/// What a size filter `>n…`/`>=n…` with a whole number and a unit reads as.
proof fn lemma_size_filter_whole(op: Seq<char>, n: Seq<char>, u: Seq<char>)
    requires
        op == seq!['>'] || op == seq!['>', '='],
        n.len() >= 1,
        forall|i: int| 0 <= i < n.len() ==> #[trigger] is_digit(n[i]),
        u.len() == 0 || !(is_digit(u[0]) || u[0] == '.'),
    ensures
        size_filter(op + n + u) == match unit_mult(u) {
            Some(m) => Some(saturate(digits_value(n) * m)),
            None => None::<u64>,
        },
{
    let tok = op + n + u;
    let r = n + u;
    assert(is_digit(n[0]));
    if op == seq!['>', '='] {
        assert(tok.subrange(2, tok.len() as int) =~= r);
    } else {
        assert(tok[1] == n[0]);
        assert(tok.subrange(1, tok.len() as int) =~= r);
    }
    lemma_digits_prefix(n, u);
    assert(r.subrange(0, n.len() as int) =~= n);
    assert(r.subrange(n.len() as int, r.len() as int) =~= u);
    assert(decimal_parts(n) == Some((n, Seq::<char>::empty())));
    assert(digits_value(Seq::<char>::empty()) == 0);
    assert(pow10(0) == 1);
}

/// Size units are binary and ignore ASCII case: for every digit string
/// `n`, the filters `>n` and `>=n` followed by `b` (or no unit), `k`/`kb`,
/// `m`/`mb`, `g`/`gb` or `t`/`tb`, each letter in either case, keep files
/// of at least `n` bytes times 1, 2^10, 2^20, 2^30 or 2^40, capped at
/// `u64::MAX`; the unit with and without its `b` reads the same.
pub proof fn lemma_size_units(n: Seq<char>, ge: bool, c: char, b: Seq<char>)
    requires
        n.len() >= 1,
        forall|i: int| 0 <= i < n.len() ==> '0' <= #[trigger] n[i] <= '9',
        b == Seq::<char>::empty() || b == seq!['b'] || b == seq!['B'],
    ensures
        ({
            let op = if ge { seq!['>', '='] } else { seq!['>'] };
            let v = digits_value(n);
            &&& size_filter(op + n + b) == Some(saturate(v))
            &&& (c == 'k' || c == 'K') ==> size_filter(op + n + (seq![c] + b)) == Some(saturate(v * 1024))
            &&& (c == 'm' || c == 'M') ==> size_filter(op + n + (seq![c] + b)) == Some(saturate(v * 1048576))
            &&& (c == 'g' || c == 'G') ==> size_filter(op + n + (seq![c] + b)) == Some(saturate(v * 1073741824))
            &&& (c == 't' || c == 'T') ==> size_filter(op + n + (seq![c] + b)) == Some(saturate(v * 1099511627776))
        }),
{
    let op = if ge { seq!['>', '='] } else { seq!['>'] };
    assert forall|i: int| 0 <= i < n.len() implies #[trigger] is_digit(n[i]) by {
        assert('0' <= n[i] <= '9');
    }
    lemma_size_filter_whole(op, n, b);
    let lb = crate::category::lower_all(b);
    assert(lb =~= Seq::<char>::empty() || lb =~= seq!['b']) by {
        if b.len() > 0 {
            assert(lb[0] == crate::category::ascii_lower(b[0]));
        }
    }
    if c == 'k' || c == 'K' || c == 'm' || c == 'M' || c == 'g' || c == 'G' || c == 't' || c == 'T' {
        let u = seq![c] + b;
        assert(u[0] == c);
        lemma_size_filter_whole(op, n, u);
        let lu = crate::category::lower_all(u);
        let lc = crate::category::ascii_lower(c);
        assert(lu =~= seq![lc] + lb);
        assert(lu =~= seq![lc] || lu =~= seq![lc, 'b']);
        if c == 'K' {
            assert(lc == 'k');
        } else if c == 'M' {
            assert(lc == 'm');
        } else if c == 'G' {
            assert(lc == 'g');
        } else if c == 'T' {
            assert(lc == 't');
        }
        assert(lu.len() >= 1 && lu[0] == lc);
        assert(lu != Seq::<char>::empty());
        assert(lu != seq!['b']) by {
            if lu == seq!['b'] {
                assert(seq!['b'][0] == 'b');
            }
        }
        if lc == 'g' {
            assert(lu != seq!['k'] && lu != seq!['k', 'b'] && lu != seq!['m'] && lu != seq!['m', 'b']) by {
                assert(seq!['k'][0] == 'k' && seq!['k', 'b'][0] == 'k' && seq!['m'][0] == 'm' && seq!['m', 'b'][0] == 'm');
            }
        }
        assert(unit_mult(u) == Some(if lc == 'k' { 1024nat } else if lc == 'm' { 1048576nat } else if lc == 'g' { 1073741824nat } else { 1099511627776nat }));
    }
    assert(unit_mult(b) == Some(1nat));
    assert(digits_value(n) * 1 == digits_value(n));
}

} // verus!
