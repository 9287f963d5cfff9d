//! Keeping the largest hits: the `cap` biggest `(size, id)` pairs of a
//! search or scan, shown size-descending with ties by ascending id.

use vstd::arithmetic::div_mod::lemma_fundamental_div_mod_converse;
use vstd::prelude::*;

verus! {

broadcast use vstd::seq_lib::group_to_multiset_ensures;

pub open spec fn sorted_keys(s: Seq<u128>) -> bool {
    forall|i: int, j: int| 0 <= i <= j < s.len() ==> s[i] <= s[j]
}

/// std's unstable sort of `u128` keys: ascending, and a permutation of
/// the input.
#[verifier::external_body]
fn sort_keys(v: &mut Vec<u128>)
    ensures
        final(v)@.to_multiset() == old(v)@.to_multiset(),
        sorted_keys(final(v)@),
{
    v.sort_unstable();
}

/// `a` ranks below `b`: smaller size, or the same size and a smaller id.
pub open spec fn ranks_below(a: (u64, u32), b: (u64, u32)) -> bool {
    a.0 < b.0 || (a.0 == b.0 && a.1 < b.1)
}

/// `a` is listed before `b`: larger size, or the same size and a smaller id.
pub open spec fn listed_before(a: (u64, u32), b: (u64, u32)) -> bool {
    a.0 > b.0 || (a.0 == b.0 && a.1 < b.1)
}

/// No id occurs twice.
pub open spec fn distinct_ids(hs: Seq<(u64, u32)>) -> bool {
    forall|i: int, j: int| 0 <= i < hs.len() && 0 <= j < hs.len() && i != j ==> hs[i].1 != hs[j].1
}

pub open spec fn min_len(cap: usize, n: nat) -> nat {
    if cap < n {
        cap as nat
    } else {
        n
    }
}

const TWO32: u128 = 0x1_0000_0000;

spec fn enc(p: (u64, u32)) -> u128 {
    (p.0 * 0x1_0000_0000 + p.1) as u128
}

spec fn dec(k: u128) -> (u64, u32) {
    ((k / 0x1_0000_0000) as u64, (k % 0x1_0000_0000) as u32)
}

/// Keys for listing order: size first, then the id flipped.
spec fn enc_list(p: (u64, u32)) -> u128 {
    (p.0 * 0x1_0000_0000 + (0xFFFF_FFFF - p.1)) as u128
}

spec fn dec_list(k: u128) -> (u64, u32) {
    ((k / 0x1_0000_0000) as u64, (0xFFFF_FFFF - k % 0x1_0000_0000) as u32)
}

proof fn lemma_enc(p: (u64, u32), q: (u64, u32))
    ensures
        dec(enc(p)) == p,
        dec_list(enc_list(p)) == p,
        enc(p) < enc(q) <==> ranks_below(p, q),
        enc_list(p) > enc_list(q) <==> listed_before(p, q),
        enc(p) == enc(q) <==> p == q,
        enc_list(p) == enc_list(q) <==> p == q,
{
    let d: int = 0x1_0000_0000;
    assert(p.0 * d + p.1 <= 0xFFFF_FFFF_FFFF_FFFF * d + 0xFFFF_FFFF) by (nonlinear_arith)
        requires
            d == 0x1_0000_0000,
            p.0 <= 0xFFFF_FFFF_FFFF_FFFF,
            p.1 <= 0xFFFF_FFFF,
    ;
    assert(q.0 * d + q.1 <= 0xFFFF_FFFF_FFFF_FFFF * d + 0xFFFF_FFFF) by (nonlinear_arith)
        requires
            d == 0x1_0000_0000,
            q.0 <= 0xFFFF_FFFF_FFFF_FFFF,
            q.1 <= 0xFFFF_FFFF,
    ;
    lemma_fundamental_div_mod_converse(p.0 * d + p.1, d, p.0 as int, p.1 as int);
    lemma_fundamental_div_mod_converse(p.0 * d + (0xFFFF_FFFF - p.1), d, p.0 as int, 0xFFFF_FFFF - p.1);
    assert(p.0 * d + p.1 < q.0 * d + q.1 <==> ranks_below(p, q)) by (nonlinear_arith)
        requires
            d == 0x1_0000_0000,
            0 <= p.1 < d,
            0 <= q.1 < d,
    ;
    assert(p.0 * d + (0xFFFF_FFFF - p.1) > q.0 * d + (0xFFFF_FFFF - q.1) <==> listed_before(p, q)) by (nonlinear_arith)
        requires
            d == 0x1_0000_0000,
            0 <= p.1 < d,
            0 <= q.1 < d,
    ;
    assert(p.0 * d + p.1 == q.0 * d + q.1 <==> p == q) by (nonlinear_arith)
        requires
            d == 0x1_0000_0000,
            0 <= p.1 < d,
            0 <= q.1 < d,
    ;
    assert(p.0 * d + (0xFFFF_FFFF - p.1) == q.0 * d + (0xFFFF_FFFF - q.1) <==> p == q) by (nonlinear_arith)
        requires
            d == 0x1_0000_0000,
            0 <= p.1 < d,
            0 <= q.1 < d,
    ;
}

fn enc_exec(p: (u64, u32)) -> (k: u128)
    ensures
        k == enc(p),
{
    proof {
        lemma_enc(p, p);
        assert(p.0 * 0x1_0000_0000 + p.1 <= 0xFFFF_FFFF_FFFF_FFFF * 0x1_0000_0000 + 0xFFFF_FFFF) by (nonlinear_arith)
            requires
                p.0 <= 0xFFFF_FFFF_FFFF_FFFF,
                p.1 <= 0xFFFF_FFFF,
        ;
    }
    (p.0 as u128) * TWO32 + (p.1 as u128)
}

fn enc_list_exec(p: (u64, u32)) -> (k: u128)
    ensures
        k == enc_list(p),
{
    proof {
        assert(p.0 * 0x1_0000_0000 + (0xFFFF_FFFF - p.1) <= 0xFFFF_FFFF_FFFF_FFFF * 0x1_0000_0000 + 0xFFFF_FFFF) by (nonlinear_arith)
            requires
                p.0 <= 0xFFFF_FFFF_FFFF_FFFF,
                p.1 <= 0xFFFF_FFFF,
        ;
    }
    (p.0 as u128) * TWO32 + (0xFFFF_FFFFu128 - p.1 as u128)
}

fn dec_exec(k: u128) -> (p: (u64, u32))
    requires
        k <= 0xFFFF_FFFF_FFFF_FFFF_FFFF_FFFF,
    ensures
        p == dec(k),
{
    let hi = k / TWO32;
    assert(hi <= 0xFFFF_FFFF_FFFF_FFFF) by (nonlinear_arith)
        requires
            hi == k / 0x1_0000_0000,
            k <= 0xFFFF_FFFF_FFFF_FFFF_FFFF_FFFF,
    ;
    ((hi as u64), ((k % TWO32) as u32))
}

fn dec_list_exec(k: u128) -> (p: (u64, u32))
    requires
        k <= 0xFFFF_FFFF_FFFF_FFFF_FFFF_FFFF,
    ensures
        p == dec_list(k),
{
    let hi = k / TWO32;
    assert(hi <= 0xFFFF_FFFF_FFFF_FFFF) by (nonlinear_arith)
        requires
            hi == k / 0x1_0000_0000,
            k <= 0xFFFF_FFFF_FFFF_FFFF_FFFF_FFFF,
    ;
    ((hi as u64), ((0xFFFF_FFFFu128 - k % TWO32) as u32))
}

spec fn from_kept(p: (u64, u32), kept: Seq<u128>) -> bool {
    exists|b: int| 0 <= b < kept.len() && p == dec(#[trigger] kept[b])
}

/// A sorted permutation of distinct keys holds exactly the keys it was
/// made from, without repeats.
proof fn lemma_permutation(s: Seq<u128>, t: Seq<u128>)
    requires
        s.no_duplicates(),
        t.to_multiset() == s.to_multiset(),
    ensures
        t.no_duplicates(),
        forall|x: u128| t.contains(x) <==> s.contains(x),
        t.len() == s.len(),
{
    s.lemma_multiset_has_no_duplicates();
    t.lemma_multiset_has_no_duplicates_conv();
    vstd::seq_lib::to_multiset_len(s);
    vstd::seq_lib::to_multiset_len(t);
    assert forall|x: u128| t.contains(x) <==> s.contains(x) by {
        vstd::seq_lib::to_multiset_contains(t, x);
        vstd::seq_lib::to_multiset_contains(s, x);
    }
}

/// The `cap` largest hits by `(size, id)`, listed size-descending with
/// ties by ascending id.
pub fn top_hits(hits: &Vec<(u64, u32)>, cap: usize) -> (r: Vec<(u64, u32)>)
    requires
        distinct_ids(hits@),
    ensures
        r@.len() == min_len(cap, hits@.len()),
        r@.no_duplicates(),
        forall|i: int| 0 <= i < r@.len() ==> hits@.contains(#[trigger] r@[i]),
        forall|x: (u64, u32), y: (u64, u32)| hits@.contains(x) && !r@.contains(x) && r@.contains(y) ==> ranks_below(x, y),
        forall|i: int, j: int| 0 <= i < j < r@.len() ==> listed_before(#[trigger] r@[i], #[trigger] r@[j]),
{
    let n = hits.len();
    let mut keys: Vec<u128> = Vec::new();
    let mut i: usize = 0;
    while i < n
        invariant
            n == hits@.len(),
            i <= n,
            keys@.len() == i,
            forall|j: int| 0 <= j < i ==> keys@[j] == enc(#[trigger] hits@[j]),
        decreases n - i,
    {
        keys.push(enc_exec(hits[i]));
        i = i + 1;
    }
    let ghost k0 = keys@;
    proof {
        assert(k0 =~= hits@.map_values(|p: (u64, u32)| enc(p)));
        assert forall|a: int, b: int| 0 <= a < k0.len() && 0 <= b < k0.len() && a != b implies k0[a] != k0[b] by {
            lemma_enc(hits@[a], hits@[b]);
        }
    }
    sort_keys(&mut keys);
    proof {
        lemma_permutation(k0, keys@);
    }
    let m = if cap < n { cap } else { n };
    // the kept ones, in listing-key form
    let mut keys2: Vec<u128> = Vec::new();
    let mut j: usize = n - m;
    while j < n
        invariant
            n == hits@.len(),
            n == keys@.len(),
            m <= n,
            n - m <= j <= n,
            keys2@.len() == j - (n - m),
            forall|a: int| 0 <= a < keys2@.len() ==> keys2@[a] == enc_list(dec(#[trigger] keys@[(n - m) + a])),
            keys@.no_duplicates(),
            forall|x: u128| keys@.contains(x) <==> k0.contains(x),
            k0 =~= hits@.map_values(|p: (u64, u32)| enc(p)),
        decreases n - j,
    {
        proof {
            assert(k0.contains(keys@[j as int]));
            let a = choose|a: int| 0 <= a < k0.len() && k0[a] == keys@[j as int];
            lemma_enc(hits@[a], hits@[a]);
        }
        keys2.push(enc_list_exec(dec_exec(keys[j])));
        j = j + 1;
    }
    let ghost kept = keys@.subrange((n - m) as int, n as int);
    let ghost k2 = keys2@;
    proof {
        assert forall|a: int, b: int| 0 <= a < k2.len() && 0 <= b < k2.len() && a != b implies k2[a] != k2[b] by {
            let ka = keys@[(n - m) + a];
            let kb = keys@[(n - m) + b];
            assert(k0.contains(ka));
            assert(k0.contains(kb));
            let ia = choose|i: int| 0 <= i < k0.len() && k0[i] == ka;
            let ib = choose|i: int| 0 <= i < k0.len() && k0[i] == kb;
            lemma_enc(hits@[ia], hits@[ib]);
            lemma_enc(dec(ka), dec(kb));
        }
    }
    sort_keys(&mut keys2);
    proof {
        lemma_permutation(k2, keys2@);
    }
    let mut out: Vec<(u64, u32)> = Vec::new();
    let mut t: usize = m;
    while t > 0
        invariant
            t <= m,
            m == keys2@.len(),
            out@.len() == m - t,
            forall|a: int| 0 <= a < out@.len() ==> #[trigger] out@[a] == dec_list(keys2@[m - 1 - a]),
            forall|x: u128| keys2@.contains(x) <==> k2.contains(x),
            forall|a: int| 0 <= a < k2.len() ==> k2[a] == enc_list(dec(#[trigger] keys@[(n - m) + a])),
            n == keys@.len(),
            m <= n,
        decreases t,
    {
        t = t - 1;
        proof {
            assert(k2.contains(keys2@[t as int]));
            let a = choose|a: int| 0 <= a < k2.len() && k2[a] == keys2@[t as int];
            lemma_enc(dec(keys@[(n - m) + a]), dec(keys@[(n - m) + a]));
        }
        out.push(dec_list_exec(keys2[t]));
    }
    proof {
        let r = out@;
        // every listed pair is a kept key's pair
        assert forall|a: int| 0 <= a < r.len() implies #[trigger] from_kept(r[a], kept) by {
            let kk = keys2@[m - 1 - a];
            assert(k2.contains(kk));
            let b = choose|b: int| 0 <= b < k2.len() && k2[b] == kk;
            lemma_enc(dec(keys@[(n - m) + b]), dec(keys@[(n - m) + b]));
            assert(kept[b] == keys@[(n - m) + b]);
        }
        // and every kept key's pair is listed
        assert forall|b: int| 0 <= b < m implies r.contains(#[trigger] dec(keys@[(n - m) + b])) by {
            assert(k2[b] == enc_list(dec(keys@[(n - m) + b])));
            assert(keys2@.contains(k2[b]));
            let c = choose|c: int| 0 <= c < keys2@.len() && keys2@[c] == k2[b];
            lemma_enc(dec(keys@[(n - m) + b]), dec(keys@[(n - m) + b]));
            assert(r[m - 1 - c] == dec_list(keys2@[c]));
        }
        // kept pairs are hits
        assert forall|b: int| 0 <= b < n implies hits@.contains(#[trigger] dec(keys@[b])) by {
            assert(k0.contains(keys@[b]));
            let ia = choose|i: int| 0 <= i < k0.len() && k0[i] == keys@[b];
            lemma_enc(hits@[ia], hits@[ia]);
        }
        assert forall|a: int| 0 <= a < r.len() implies hits@.contains(#[trigger] r[a]) by {
            assert(from_kept(r[a], kept));
            let b = choose|b: int| 0 <= b < kept.len() && r[a] == dec(#[trigger] kept[b]);
            assert(hits@.contains(dec(keys@[(n - m) + b])));
        }
        // no repeats: the listing keys are distinct
        assert forall|a: int, b: int| 0 <= a < r.len() && 0 <= b < r.len() && a != b implies r[a] != r[b] by {
            let ka = keys2@[m - 1 - a];
            let kb = keys2@[m - 1 - b];
            assert(k2.contains(ka));
            assert(k2.contains(kb));
            let ia = choose|i: int| 0 <= i < k2.len() && k2[i] == ka;
            let ib = choose|i: int| 0 <= i < k2.len() && k2[i] == kb;
            lemma_enc(dec(keys@[(n - m) + ia]), dec(keys@[(n - m) + ib]));
            lemma_enc(dec_list(ka), dec_list(kb));
        }
        // listing order
        assert forall|a: int, b: int| 0 <= a < b < r.len() implies listed_before(#[trigger] r[a], #[trigger] r[b]) by {
            let ka = keys2@[m - 1 - a];
            let kb = keys2@[m - 1 - b];
            assert(ka >= kb);
            assert(ka != kb);
            assert(k2.contains(ka));
            assert(k2.contains(kb));
            let ia = choose|i: int| 0 <= i < k2.len() && k2[i] == ka;
            let ib = choose|i: int| 0 <= i < k2.len() && k2[i] == kb;
            lemma_enc(dec(keys@[(n - m) + ia]), dec(keys@[(n - m) + ib]));
        }
        // what was left out ranks below everything kept
        assert forall|x: (u64, u32), y: (u64, u32)| hits@.contains(x) && !r.contains(x) && r.contains(y) implies ranks_below(x, y) by {
            let ix = choose|i: int| 0 <= i < hits@.len() && hits@[i] == x;
            assert(k0[ix] == enc(x));
            assert(keys@.contains(enc(x)));
            let px = choose|i: int| 0 <= i < keys@.len() && keys@[i] == enc(x);
            lemma_enc(x, x);
            if px >= n - m {
                assert(r.contains(dec(keys@[(n - m) + (px - (n - m))])));
                assert(false);
            }
            let iy = choose|i: int| 0 <= i < r.len() && r[i] == y;
            assert(from_kept(r[iy], kept));
            let b = choose|b: int| 0 <= b < kept.len() && r[iy] == dec(#[trigger] kept[b]);
            let ky = keys@[(n - m) + b];
            assert(keys@[px] <= ky);
            assert(k0.contains(ky));
            let iyy = choose|i: int| 0 <= i < k0.len() && k0[i] == ky;
            lemma_enc(hits@[iyy], hits@[iyy]);
            lemma_enc(x, dec(ky));
            assert(keys@[px] != ky);
        }
    }
    out
}

} // verus!
