//! Bend source text for an A/B harness: lists of cases written as a Bend
//! module, cut into chunks so that no single list literal nests too deep.

use vstd::prelude::*;

use crate::text::{decimal, push_decimal, push_str};

verus! {

/// `items` joined by `sep`.
pub open spec fn joined(items: Seq<Seq<char>>, sep: Seq<char>) -> Seq<char>
    decreases items.len(),
{
    if items.len() == 0 {
        Seq::empty()
    } else if items.len() == 1 {
        items[0]
    } else {
        joined(items.drop_last(), sep) + sep + items.last()
    }
}

/// The texts of `items`.
pub open spec fn texts(items: Seq<String>) -> Seq<Seq<char>> {
    items.map_values(|s: String| s@)
}

/// `items` cut into runs of `size`, the last one shorter where the length
/// is not a multiple of `size` (as `slice::chunks` cuts).
pub open spec fn chunks(items: Seq<Seq<char>>, size: nat) -> Seq<Seq<Seq<char>>>
    decreases items.len(),
{
    if items.len() == 0 || size == 0 {
        Seq::empty()
    } else if items.len() <= size {
        seq![items]
    } else {
        seq![items.take(size as int)] + chunks(items.skip(size as int), size)
    }
}

/// The definition of chunk number `k`.
pub open spec fn chunk_def(name: Seq<char>, ty: Seq<char>, chunk: Seq<Seq<char>>, k: nat) -> Seq<char> {
    "def "@ + name + ".c"@ + decimal(k) + "() -> List<&2, "@ + ty + ">:\n"@ + "  ["@ + joined(chunk, ",\n   "@)
        + "]\n\n"@
}

/// The definitions of the chunks `cs`, numbered from 0.
pub open spec fn chunk_defs(name: Seq<char>, ty: Seq<char>, cs: Seq<Seq<Seq<char>>>) -> Seq<char>
    decreases cs.len(),
{
    if cs.len() == 0 {
        Seq::empty()
    } else {
        chunk_defs(name, ty, cs.drop_last()) + chunk_def(name, ty, cs.last(), (cs.len() - 1) as nat)
    }
}

/// The calls of the first `n` chunk definitions.
pub open spec fn chunk_calls(name: Seq<char>, n: nat) -> Seq<Seq<char>> {
    Seq::new(n, |k: int| name + ".c"@ + decimal(k as nat) + "()"@)
}

/// The module: an import, one definition per chunk, and a definition
/// `name` listing the chunks.
pub open spec fn list_module(name: Seq<char>, ty: Seq<char>, items: Seq<Seq<char>>, size: nat) -> Seq<char> {
    let cs = chunks(items, size);
    "import Base\n\n"@ + chunk_defs(name, ty, cs) + "def "@ + name + "() -> List<&2, List<&2, "@ + ty + ">>:\n"@
        + "  ["@ + joined(chunk_calls(name, cs.len()), ", "@) + "]\n"@
}

/// A byte list as a Bend literal: its values in decimal, comma separated.
pub open spec fn byte_list(c: Seq<u8>) -> Seq<char> {
    "["@ + joined(c.map_values(|b: u8| decimal(b as nat)), ", "@) + "]"@
}

proof fn lemma_joined_step(items: Seq<Seq<char>>, sep: Seq<char>, j: int)
    requires
        0 <= j < items.len(),
    ensures
        joined(items.take(j + 1), sep) == if j == 0 {
            items[0]
        } else {
            joined(items.take(j), sep) + sep + items[j]
        },
{
    assert(items.take(j + 1).drop_last() =~= items.take(j));
    if j == 0 {
        assert(items.take(1)[0] == items[0]);
    }
}

/// Appends `items[lo..hi]` joined by `sep`.
fn push_joined(out: &mut String, items: &Vec<String>, lo: usize, hi: usize, sep: &str)
    requires
        lo <= hi <= items.len(),
    ensures
        final(out)@ == old(out)@ + joined(texts(items@).subrange(lo as int, hi as int), sep@),
{
    let ghost start = out@;
    let ghost part = texts(items@).subrange(lo as int, hi as int);
    let mut j: usize = lo;
    while j < hi
        invariant
            lo <= j <= hi <= items.len(),
            part == texts(items@).subrange(lo as int, hi as int),
            out@ == start + joined(part.take(j - lo), sep@),
        decreases hi - j,
    {
        let ghost before = out@;
        if j > lo {
            push_str(out, sep);
        }
        push_str(out, items[j].as_str());
        proof {
            lemma_joined_step(part, sep@, j - lo);
            if j > lo {
                assert(out@ =~= start + (joined(part.take(j - lo), sep@) + sep@ + part[j - lo]));
            } else {
                assert(part.take(0) =~= Seq::<Seq<char>>::empty());
                assert(out@ =~= start + part[0]);
            }
        }
        j = j + 1;
    }
    proof {
        assert(part.take(hi - lo) =~= part);
    }
}

/// The bytes of one case as a Bend list literal.
pub fn bend_bytes(c: &Vec<u8>) -> (r: String)
    ensures
        r@ == byte_list(c@),
{
    let mut items: Vec<String> = Vec::new();
    let mut i: usize = 0;
    while i < c.len()
        invariant
            i <= c.len(),
            items.len() == i,
            texts(items@) == c@.take(i as int).map_values(|b: u8| decimal(b as nat)),
        decreases c.len() - i,
    {
        let mut d = String::new();
        push_decimal(&mut d, c[i] as u64);
        let ghost prev = items@;
        items.push(d);
        proof {
            assert forall|j: int| 0 <= j < i + 1 implies #[trigger] texts(items@)[j] == c@.take(i + 1).map_values(
                |b: u8| decimal(b as nat),
            )[j] by {
                if j < i {
                    assert(texts(prev)[j] == c@.take(i as int).map_values(|b: u8| decimal(b as nat))[j]);
                }
            }
            assert(texts(items@) =~= c@.take(i + 1).map_values(|b: u8| decimal(b as nat)));
        }
        i = i + 1;
    }
    let mut o = String::new();
    proof {
        reveal_strlit("[");
        reveal_strlit("]");
    }
    push_str(&mut o, "[");
    push_joined(&mut o, &items, 0, items.len(), ", ");
    push_str(&mut o, "]");
    proof {
        assert(c@.take(c@.len() as int) =~= c@);
        assert(texts(items@).subrange(0, items@.len() as int) =~= texts(items@));
        assert(o@ =~= byte_list(c@));
    }
    o
}

/// The Bend module defining `name` as `items` (each already Bend source of
/// type `ty`), in chunks of `size`.
pub fn bend_list(name: &str, ty: &str, items: &Vec<String>, size: usize) -> (r: String)
    requires
        size > 0,
    ensures
        r@ == list_module(name@, ty@, texts(items@), size as nat),
{
    let ghost all = texts(items@);
    let mut o = String::new();
    push_str(&mut o, "import Base\n\n");
    let ghost head = o@;
    let mut start: usize = 0;
    let mut k: usize = 0;
    let mut calls: Vec<String> = Vec::new();
    let ghost mut done: Seq<Seq<Seq<char>>> = Seq::empty();
    proof {
        assert(all.skip(0) =~= all);
        assert(done + chunks(all, size as nat) =~= chunks(all, size as nat));
        assert(texts(calls@) =~= chunk_calls(name@, 0));
    }
    while start < items.len()
        invariant
            start <= items.len(),
            size > 0,
            all == texts(items@),
            k == done.len(),
            k == calls.len(),
            k <= start,
            done + chunks(all.skip(start as int), size as nat) == chunks(all, size as nat),
            o@ == head + chunk_defs(name@, ty@, done),
            texts(calls@) == chunk_calls(name@, k as nat),
        decreases items.len() - start,
    {
        let end: usize = if items.len() - start > size { start + size } else { items.len() };
        let ghost rest = all.skip(start as int);
        let ghost chunk = all.subrange(start as int, end as int);
        proof {
            if rest.len() <= size {
                assert(rest =~= chunk);
                assert(chunks(all.skip(end as int), size as nat) =~= Seq::<Seq<Seq<char>>>::empty());
                assert(chunks(rest, size as nat) == seq![chunk]);
            } else {
                assert(rest.take(size as int) =~= chunk);
                assert(rest.skip(size as int) =~= all.skip(end as int));
            }
            assert(done + chunks(rest, size as nat) =~= done.push(chunk) + chunks(all.skip(end as int), size as nat));
        }
        let ghost before = o@;
        push_str(&mut o, "def ");
        push_str(&mut o, name);
        push_str(&mut o, ".c");
        push_decimal(&mut o, k as u64);
        push_str(&mut o, "() -> List<&2, ");
        push_str(&mut o, ty);
        push_str(&mut o, ">:\n");
        push_str(&mut o, "  [");
        push_joined(&mut o, items, start, end, ",\n   ");
        push_str(&mut o, "]\n\n");
        let mut call = String::new();
        push_str(&mut call, name);
        push_str(&mut call, ".c");
        push_decimal(&mut call, k as u64);
        push_str(&mut call, "()");
        let ghost prev = calls@;
        calls.push(call);
        proof {
            assert(o@ =~= before + chunk_def(name@, ty@, chunk, k as nat));
            assert(done.push(chunk).drop_last() =~= done);
            assert forall|j: int| 0 <= j < k + 1 implies #[trigger] texts(calls@)[j] == chunk_calls(name@, (k + 1) as nat)[j] by {
                if j < k {
                    assert(texts(prev)[j] == chunk_calls(name@, k as nat)[j]);
                }
            }
            assert(texts(calls@) =~= chunk_calls(name@, (k + 1) as nat));
            done = done.push(chunk);
        }
        start = end;
        k = k + 1;
    }
    proof {
        assert(chunks(all.skip(start as int), size as nat) =~= Seq::<Seq<Seq<char>>>::empty());
        assert(done + Seq::<Seq<Seq<char>>>::empty() =~= done);
    }
    let ghost mid = o@;
    push_str(&mut o, "def ");
    push_str(&mut o, name);
    push_str(&mut o, "() -> List<&2, List<&2, ");
    push_str(&mut o, ty);
    push_str(&mut o, ">>:\n");
    push_str(&mut o, "  [");
    push_joined(&mut o, &calls, 0, calls.len(), ", ");
    push_str(&mut o, "]\n");
    proof {
        assert(texts(calls@).subrange(0, calls@.len() as int) =~= texts(calls@));
        assert(o@ =~= list_module(name@, ty@, texts(items@), size as nat));
    }
    o
}

/// The Bend module defining `name` as the byte lists `cases`, in chunks of
/// `size`: the text written for a suite of byte cases.
pub fn bend_bytes_module(name: &str, cases: &Vec<Vec<u8>>, size: usize) -> (r: String)
    requires
        size > 0,
    ensures
        r@ == list_module(name@, "List<&2, U32>"@, cases@.map_values(|c: Vec<u8>| byte_list(c@)), size as nat),
{
    let mut items: Vec<String> = Vec::new();
    let mut i: usize = 0;
    while i < cases.len()
        invariant
            i <= cases.len(),
            items.len() == i,
            texts(items@) == cases@.take(i as int).map_values(|c: Vec<u8>| byte_list(c@)),
        decreases cases.len() - i,
    {
        let t = bend_bytes(&cases[i]);
        let ghost prev = items@;
        items.push(t);
        proof {
            assert forall|j: int| 0 <= j < i + 1 implies #[trigger] texts(items@)[j] == cases@.take(i + 1).map_values(
                |c: Vec<u8>| byte_list(c@),
            )[j] by {
                if j < i {
                    assert(texts(prev)[j] == cases@.take(i as int).map_values(|c: Vec<u8>| byte_list(c@))[j]);
                }
            }
            assert(texts(items@) =~= cases@.take(i + 1).map_values(|c: Vec<u8>| byte_list(c@)));
        }
        i = i + 1;
    }
    proof {
        assert(cases@.take(cases@.len() as int) =~= cases@);
    }
    bend_list(name, "List<&2, U32>", &items, size)
}

} // verus!
