//! Subtree statistics for the detail panel: bytes and file counts per
//! extension, and the largest files.

use std::collections::HashMap;

use vstd::prelude::*;
use vstd::string::StringSliceAdditionalSpecFns;

use crate::category::{Category, ExtKey, categorize_ext, ext_category, extension_key, key_of};
use crate::interner::str_eq;
use crate::rank::{distinct_ids, listed_before, min_len, ranks_below, top_hits};
use crate::sums::{lemma_sum_nonneg, lemma_sum_zero, sum_to};
use crate::text::chars_of;
use crate::tree::{NodeId, Tree};

verus! {

broadcast use vstd::std_specs::hash::group_hash_axioms, vstd::utf8::group_utf8_lib;

#[derive(Clone, Debug)]
pub struct TypeStat {
    pub ext: Option<ExtKey>,
    pub category: Category,
    pub bytes: u64,
    pub files: u64,
}

#[derive(Clone, Debug)]
pub struct TypeBreakdown {
    /// Every extension in the subtree, largest first.
    pub types: Vec<TypeStat>,
    pub total_bytes: u64,
    pub total_files: u64,
}

/// `m` is one of the files a walk from `root` counts: reached from it
/// (see `Tree::reaches`) and not a directory.
pub open spec fn counted(t: Tree, root: int, hide_system: bool, m: int) -> bool {
    &&& 0 <= root < t.slots()
    &&& 0 <= m < t.slots()
    &&& t.reaches(root, m, hide_system)
    &&& !t.is_dir_at(m)
}

pub open spec fn ext_view(e: Option<ExtKey>) -> Option<Seq<char>> {
    match e {
        Some(k) => Some(k.view()),
        None => None,
    }
}

/// The text an extension sorts by: the key, or nothing.
pub open spec fn ext_text(k: Option<Seq<char>>) -> Seq<char> {
    match k {
        Some(s) => s,
        None => Seq::empty(),
    }
}

/// The category an extension group is shown with.
pub open spec fn group_category(k: Option<Seq<char>>) -> Category {
    match k {
        Some(s) => ext_category(s),
        None => Category::Other,
    }
}

/// Bytes of the counted files whose extension is `k`.
pub open spec fn bytes_term(t: Tree, root: int, hide_system: bool, k: Option<Seq<char>>) -> spec_fn(int) -> int {
    |m: int| if counted(t, root, hide_system, m) && key_of(t.name_view(m)) == k { t.node_view(m).size as int } else { 0 }
}

/// One per counted file whose extension is `k`.
pub open spec fn files_term(t: Tree, root: int, hide_system: bool, k: Option<Seq<char>>) -> spec_fn(int) -> int {
    |m: int| if counted(t, root, hide_system, m) && key_of(t.name_view(m)) == k { 1int } else { 0 }
}

pub open spec fn all_bytes_term(t: Tree, root: int, hide_system: bool) -> spec_fn(int) -> int {
    |m: int| if counted(t, root, hide_system, m) { t.node_view(m).size as int } else { 0 }
}

pub open spec fn all_files_term(t: Tree, root: int, hide_system: bool) -> spec_fn(int) -> int {
    |m: int| if counted(t, root, hide_system, m) { 1int } else { 0 }
}

/// Lexicographic order of texts by code point (`str`'s order).
pub open spec fn text_lt(a: Seq<char>, b: Seq<char>) -> bool
    decreases a.len(),
{
    if b.len() == 0 {
        false
    } else if a.len() == 0 {
        true
    } else if a[0] != b[0] {
        (a[0] as u32) < (b[0] as u32)
    } else {
        text_lt(a.drop_first(), b.drop_first())
    }
}

/// Listing order of extension groups: more bytes first, then by extension.
pub open spec fn stat_before(a: TypeStat, b: TypeStat) -> bool {
    ||| a.bytes > b.bytes
    ||| (a.bytes == b.bytes && text_lt(ext_text(ext_view(a.ext)), ext_text(ext_view(b.ext))))
}

pub(crate) proof fn lemma_text_lt_trans(a: Seq<char>, b: Seq<char>, c: Seq<char>)
    requires
        text_lt(a, b),
        text_lt(b, c),
    ensures
        text_lt(a, c),
    decreases a.len(),
{
    if a.len() > 0 && b.len() > 0 && c.len() > 0 && a[0] == b[0] && b[0] == c[0] {
        lemma_text_lt_trans(a.drop_first(), b.drop_first(), c.drop_first());
    }
}

pub(crate) proof fn lemma_text_lt_total(a: Seq<char>, b: Seq<char>)
    ensures
        a != b ==> text_lt(a, b) || text_lt(b, a),
        !(text_lt(a, b) && text_lt(b, a)),
        !text_lt(a, a),
    decreases a.len(),
{
    if a.len() > 0 && b.len() > 0 && a[0] != b[0] {
        vstd::utf8::char_u32_cast(a[0], a[0] as u32);
        vstd::utf8::char_u32_cast(b[0], b[0] as u32);
    }
    if a.len() > 0 && b.len() > 0 && a[0] == b[0] {
        lemma_text_lt_total(a.drop_first(), b.drop_first());
        if a.drop_first() == b.drop_first() {
            assert forall|i: int| 0 <= i < a.len() implies a[i] == b[i] by {
                if i > 0 {
                    assert(a[i] == a.drop_first()[i - 1]);
                    assert(b[i] == b.drop_first()[i - 1]);
                }
            }
            assert(a =~= b);
        }
    }
    if a.len() > 0 {
        lemma_text_lt_total(a.drop_first(), a.drop_first());
    }
    if a.len() == 0 && b.len() == 0 {
        assert(a =~= b);
    }
}

/// `a` sorts before `b`, by code point.
fn text_less(a: &str, b: &str) -> (r: bool)
    ensures
        r == text_lt(a@, b@),
{
    let x = chars_of(a);
    let y = chars_of(b);
    proof {
        assert(x@.subrange(0, x@.len() as int) =~= x@);
        assert(y@.subrange(0, y@.len() as int) =~= y@);
    }
    let mut i: usize = 0;
    while i < x.len() && i < y.len() && x[i] == y[i]
        invariant
            i <= x@.len(),
            i <= y@.len(),
            x@ == a@,
            y@ == b@,
            text_lt(a@, b@) == text_lt(x@.subrange(i as int, x@.len() as int), y@.subrange(i as int, y@.len() as int)),
        decreases x@.len() - i,
    {
        proof {
            let sx = x@.subrange(i as int, x@.len() as int);
            let sy = y@.subrange(i as int, y@.len() as int);
            assert(sx.drop_first() =~= x@.subrange(i + 1, x@.len() as int));
            assert(sy.drop_first() =~= y@.subrange(i + 1, y@.len() as int));
        }
        i = i + 1;
    }
    let ghost sx = x@.subrange(i as int, x@.len() as int);
    let ghost sy = y@.subrange(i as int, y@.len() as int);
    if i == y.len() {
        false
    } else if i == x.len() {
        true
    } else {
        proof {
            assert(sx[0] == x@[i as int]);
            assert(sy[0] == y@[i as int]);
        }
        (x[i] as u32) < (y[i] as u32)
    }
}

/// The extensions agree (both absent, or the same key).
fn same_ext(a: &Option<ExtKey>, b: &Option<ExtKey>) -> (r: bool)
    ensures
        r == (ext_view(*a) == ext_view(*b)),
{
    match (a, b) {
        (None, None) => true,
        (Some(x), Some(y)) => {
            let r = str_eq(x.as_str(), y.as_str());
            proof {
                vstd::utf8::encode_utf8_decode_utf8(x.view());
                vstd::utf8::encode_utf8_decode_utf8(y.view());
            }
            r
        },
        _ => false,
    }
}

/// A lookup code for an extension; collisions are resolved by comparing
/// the keys themselves.
pub open spec fn code_step(h: u64, c: char) -> u64 {
    ((h * 131 + (c as u32)) % 0x1_0000_0000_0000_0000) as u64
}

pub open spec fn ext_code(s: Seq<char>) -> u64
    decreases s.len(),
{
    if s.len() == 0 {
        0
    } else {
        code_step(ext_code(s.drop_last()), s.last())
    }
}

fn ext_code_exec(k: &ExtKey) -> (h: u64)
    ensures
        h == ext_code(k.view()),
{
    let chars = chars_of(k.as_str());
    let mut h: u64 = 0;
    let mut i: usize = 0;
    while i < chars.len()
        invariant
            i <= chars@.len(),
            chars@ == k.view(),
            h == ext_code(chars@.subrange(0, i as int)),
        decreases chars@.len() - i,
    {
        let wide: u128 = (h as u128) * 131 + (chars[i] as u32 as u128);
        h = (wide % 0x1_0000_0000_0000_0000u128) as u64;
        proof {
            let s = chars@.subrange(0, i + 1);
            assert(s.drop_last() =~= chars@.subrange(0, i as int));
            assert(s.last() == chars@[i as int]);
        }
        i = i + 1;
    }
    proof {
        assert(chars@.subrange(0, i as int) =~= chars@);
    }
    h
}

fn clone_ext(e: &Option<ExtKey>) -> (r: Option<ExtKey>)
    ensures
        ext_view(r) == ext_view(*e),
{
    match e {
        None => None,
        Some(k) => Some(k.duplicate()),
    }
}

/// Bytes and file counts per extension over the files a walk from `root`
/// reaches, largest first; unknown roots yield nothing.
pub fn type_breakdown(tree: &Tree, root: NodeId, hide_system: bool) -> (r: TypeBreakdown)
    requires
        tree.wf(),
    ensures
        r.total_bytes == sum_to(all_bytes_term(*tree, root as int, hide_system), tree.slots() as int),
        r.total_files == sum_to(all_files_term(*tree, root as int, hide_system), tree.slots() as int),
        forall|i: int| 0 <= i < r.types@.len() ==> {
            let s = #[trigger] r.types@[i];
            &&& s.bytes == sum_to(bytes_term(*tree, root as int, hide_system, ext_view(s.ext)), tree.slots() as int)
            &&& s.files == sum_to(files_term(*tree, root as int, hide_system, ext_view(s.ext)), tree.slots() as int)
            &&& s.files > 0
            &&& s.category == group_category(ext_view(s.ext))
        },
        forall|i: int, j: int| 0 <= i < r.types@.len() && 0 <= j < r.types@.len() && i != j
            ==> ext_view(#[trigger] r.types@[i].ext) != ext_view(#[trigger] r.types@[j].ext),
        forall|m: int| #[trigger] counted(*tree, root as int, hide_system, m) ==> exists|i: int|
            0 <= i < r.types@.len() && ext_view(#[trigger] r.types@[i].ext) == key_of(tree.name_view(m)),
        forall|i: int, j: int| 0 <= i < j < r.types@.len() ==> stat_before(#[trigger] r.types@[i], #[trigger] r.types@[j]),
        sum_to(|i: int| r.types@[i].bytes as int, r.types@.len() as int) == r.total_bytes,
        sum_to(|i: int| r.types@[i].files as int, r.types@.len() as int) == r.total_files,
{
    let ghost t = *tree;
    let ghost rt = root as int;
    let n = tree.len();
    let ghost slots = n as int;
    let mut keys: Vec<Option<ExtKey>> = Vec::new();
    let mut bytes: Vec<u64> = Vec::new();
    let mut files: Vec<u64> = Vec::new();
    let mut index: HashMap<u64, usize> = HashMap::new();
    let mut total_bytes: u64 = 0;
    let mut total_files: u64 = 0;
    let mut m: usize = 0;
    let end: usize = if (root as usize) < n { n } else { 0 };
    proof {
        t.lemma_slots_bound();
        if end == 0 {
            assert forall|x: int| 0 <= x < slots implies !counted(t, rt, hide_system, x) by {}
        }
        lemma_sum_zero(all_bytes_term(t, rt, hide_system), 0);
        lemma_sum_zero(all_files_term(t, rt, hide_system), 0);
    }
    while m < end
        invariant
            t == *tree,
            t.wf(),
            rt == root as int,
            slots == t.slots(),
            n == slots,
            end <= n,
            n <= 0xFFFF_FFFF,
            end > 0 ==> root < n,
            end == 0 ==> forall|x: int| 0 <= x < slots ==> !counted(t, rt, hide_system, x),
            m <= end,
            keys@.len() == bytes@.len(),
            keys@.len() == files@.len(),
            keys@.len() <= m,
            forall|i: int| 0 <= i < keys@.len() ==> #[trigger] bytes@[i] == sum_to(bytes_term(t, rt, hide_system, ext_view(keys@[i])), m as int),
            forall|i: int| 0 <= i < keys@.len() ==> #[trigger] files@[i] == sum_to(files_term(t, rt, hide_system, ext_view(keys@[i])), m as int),
            forall|i: int| 0 <= i < keys@.len() ==> #[trigger] files@[i] > 0,
            forall|i: int, j: int| 0 <= i < keys@.len() && 0 <= j < keys@.len() && i != j
                ==> ext_view(#[trigger] keys@[i]) != ext_view(#[trigger] keys@[j]),
            forall|x: int| 0 <= x < m && #[trigger] counted(t, rt, hide_system, x) ==> exists|i: int|
                0 <= i < keys@.len() && ext_view(#[trigger] keys@[i]) == key_of(t.name_view(x)),
            forall|c: u64| #[trigger] index@.contains_key(c) ==> index@[c] < keys@.len(),
            forall|i: int| 0 <= i < keys@.len() ==> (#[trigger] keys@[i] matches Some(k) ==> k.view().len() > 0),
            forall|i: int| 0 <= i < keys@.len() ==> (#[trigger] keys@[i] matches Some(k) ==> index@.contains_key(ext_code(k.view()))),
            total_bytes == sum_to(all_bytes_term(t, rt, hide_system), m as int),
            total_files == sum_to(all_files_term(t, rt, hide_system), m as int),
        decreases end - m,
    {
        let ghost mi = m as int;
        let id = m as NodeId;
        assert(id as int == mi);
        if tree.reaches_from(root, id, hide_system) && !tree.node(id).is_dir() {
            let size = tree.node(id).size;
            let key = extension_key(tree.name(id));
            let ghost kv = ext_view(key);
            proof {
                assert(counted(t, rt, hide_system, mi));
                assert(kv == key_of(t.name_view(mi)));
                t.lemma_leaf_size(mi);
                // every running sum stays within the tree's bytes
                let fa = all_bytes_term(t, rt, hide_system);
                assert forall|x: int| 0 <= x < slots implies #[trigger] fa(x) <= t.own_size(x) by {
                    if counted(t, rt, hide_system, x) {
                        t.lemma_leaf_size(x);
                    }
                }
                t.lemma_within_total(fa);
                lemma_sum_prefix_le(fa, mi + 1, slots);
                lemma_sum_nonneg(fa, mi);
                assert forall|i: int| 0 <= i < keys@.len() implies #[trigger] bytes@[i] + size <= u64::MAX by {
                    let fk = bytes_term(t, rt, hide_system, ext_view(keys@[i]));
                    assert forall|x: int| 0 <= x < mi implies #[trigger] fk(x) <= fa(x) by {}
                    crate::sums::lemma_sum_le(fk, fa, mi);
                }
            }
            // find the group
            let mut found: Option<usize> = None;
            match &key {
                None => {},
                Some(k) => {
                    let code = ext_code_exec(k);
                    match index.get(&code) {
                        Some(at) => {
                            let at = *at;
                            if same_ext(&keys[at], &key) {
                                found = Some(at);
                            }
                        },
                        None => {},
                    }
                },
            }
            if found.is_none() {
                let mut i: usize = 0;
                while i < keys.len()
                    invariant_except_break
                        found is None,
                    invariant
                        i <= keys@.len(),
                        kv == ext_view(key),
                        forall|j: int| 0 <= j < i ==> ext_view(#[trigger] keys@[j]) != kv,
                    ensures
                        found matches Some(j) ==> j < keys@.len() && ext_view(keys@[j as int]) == kv,
                        found is None ==> forall|j: int| 0 <= j < keys@.len() ==> ext_view(#[trigger] keys@[j]) != kv,
                    decreases keys@.len() - i,
                {
                    if same_ext(&keys[i], &key) {
                        found = Some(i);
                        break;
                    }
                    i = i + 1;
                }
            }
            let ghost old_keys = keys@;
            let ghost old_bytes = bytes@;
            let ghost old_files = files@;
            proof {
                let fa = all_files_term(t, rt, hide_system);
                crate::sums::lemma_sum_count_bound(fa, mi);
                assert forall|i: int| 0 <= i < keys@.len() implies #[trigger] files@[i] <= mi by {
                    let fk = files_term(t, rt, hide_system, ext_view(keys@[i]));
                    crate::sums::lemma_sum_le(fk, fa, mi);
                }
            }
            match found {
                Some(i) => {
                    bytes.set(i, bytes[i] + size);
                    files.set(i, files[i] + 1);
                    proof {
                        assert forall|j: int| 0 <= j < keys@.len() implies #[trigger] bytes@[j] == sum_to(bytes_term(t, rt, hide_system, ext_view(keys@[j])), mi + 1) by {
                            if j != i {
                                assert(ext_view(keys@[j]) != ext_view(keys@[i as int]));
                            }
                        }
                        assert forall|j: int| 0 <= j < keys@.len() implies #[trigger] files@[j] == sum_to(files_term(t, rt, hide_system, ext_view(keys@[j])), mi + 1) by {
                            if j != i {
                                assert(ext_view(keys@[j]) != ext_view(keys@[i as int]));
                            }
                        }
                        assert forall|x: int| 0 <= x < mi + 1 && #[trigger] counted(t, rt, hide_system, x) implies exists|j: int|
                            0 <= j < keys@.len() && ext_view(#[trigger] keys@[j]) == key_of(t.name_view(x)) by {
                            if x == mi {
                                assert(ext_view(keys@[i as int]) == key_of(t.name_view(x)));
                            }
                        }
                    }
                },
                None => {
                    proof {
                        let fb = bytes_term(t, rt, hide_system, kv);
                        let ff = files_term(t, rt, hide_system, kv);
                        assert forall|x: int| 0 <= x < mi implies #[trigger] fb(x) == 0 by {
                            if counted(t, rt, hide_system, x) && key_of(t.name_view(x)) == kv {
                                let j = choose|j: int| 0 <= j < keys@.len() && ext_view(#[trigger] keys@[j]) == key_of(t.name_view(x));
                                assert(ext_view(keys@[j]) != kv);
                            }
                        }
                        assert forall|x: int| 0 <= x < mi implies #[trigger] ff(x) == 0 by {
                            if counted(t, rt, hide_system, x) && key_of(t.name_view(x)) == kv {
                                let j = choose|j: int| 0 <= j < keys@.len() && ext_view(#[trigger] keys@[j]) == key_of(t.name_view(x));
                                assert(ext_view(keys@[j]) != kv);
                            }
                        }
                        lemma_sum_zero(fb, mi);
                        lemma_sum_zero(ff, mi);
                    }
                    if let Some(k) = &key {
                        let code = ext_code_exec(k);
                        index.insert(code, keys.len());
                    }
                    keys.push(clone_ext(&key));
                    bytes.push(size);
                    files.push(1);
                    proof {
                        let last = old_keys.len() as int;
                        assert(ext_view(keys@[last]) == kv);
                        assert forall|j: int| 0 <= j < keys@.len() implies #[trigger] bytes@[j] == sum_to(bytes_term(t, rt, hide_system, ext_view(keys@[j])), mi + 1) by {
                            if j != last {
                                assert(keys@[j] == old_keys[j]);
                                assert(ext_view(old_keys[j]) != kv);
                            }
                        }
                        assert forall|j: int| 0 <= j < keys@.len() implies #[trigger] files@[j] == sum_to(files_term(t, rt, hide_system, ext_view(keys@[j])), mi + 1) by {
                            if j != last {
                                assert(keys@[j] == old_keys[j]);
                                assert(ext_view(old_keys[j]) != kv);
                            }
                        }
                        assert forall|j: int| 0 <= j < keys@.len() implies #[trigger] files@[j] > 0 by {
                            if j != last {
                                assert(files@[j] == old_files[j]);
                            }
                        }
                        assert forall|a: int, b: int| 0 <= a < keys@.len() && 0 <= b < keys@.len() && a != b
                            implies ext_view(#[trigger] keys@[a]) != ext_view(#[trigger] keys@[b]) by {
                            if a != last && b != last {
                                assert(keys@[a] == old_keys[a]);
                                assert(keys@[b] == old_keys[b]);
                            } else if a == last {
                                assert(keys@[b] == old_keys[b]);
                                assert(ext_view(old_keys[b]) != kv);
                            } else {
                                assert(keys@[a] == old_keys[a]);
                                assert(ext_view(old_keys[a]) != kv);
                            }
                        }
                        assert forall|x: int| 0 <= x < mi + 1 && #[trigger] counted(t, rt, hide_system, x) implies exists|j: int|
                            0 <= j < keys@.len() && ext_view(#[trigger] keys@[j]) == key_of(t.name_view(x)) by {
                            if x == mi {
                                assert(ext_view(keys@[last]) == key_of(t.name_view(x)));
                            } else {
                                let j = choose|j: int| 0 <= j < old_keys.len() && ext_view(#[trigger] old_keys[j]) == key_of(t.name_view(x));
                                assert(keys@[j] == old_keys[j]);
                            }
                        }
                        assert forall|i: int| 0 <= i < keys@.len() implies (#[trigger] keys@[i] matches Some(k) ==> index@.contains_key(ext_code(k.view()))) by {
                            if i != last {
                                assert(keys@[i] == old_keys[i]);
                            }
                        }
                        assert forall|i: int| 0 <= i < keys@.len() implies (#[trigger] keys@[i] matches Some(k) ==> k.view().len() > 0) by {
                            if i != last {
                                assert(keys@[i] == old_keys[i]);
                            }
                        }
                    }
                },
            }
            total_bytes = total_bytes + size;
            total_files = total_files + 1;
        }
        m = m + 1;
    }
    proof {
        if end == 0 {
            lemma_sum_zero(all_bytes_term(t, rt, hide_system), slots);
            lemma_sum_zero(all_files_term(t, rt, hide_system), slots);
            assert(keys@.len() == 0);
        }
    }
    // list the groups, largest first
    let g = keys.len();
    let mut taken: Vec<bool> = Vec::new();
    let mut i: usize = 0;
    while i < g
        invariant
            i <= g,
            taken@.len() == i,
            forall|x: int| 0 <= x < i ==> !#[trigger] taken@[x],
        decreases g - i,
    {
        taken.push(false);
        i = i + 1;
    }
    let mut order: Vec<usize> = Vec::new();
    proof {
        assert forall|x: int| 0 <= x < g implies #[trigger] untaken_term(taken@)(x) == 1 by {}
        crate::sums::lemma_sum_ext(untaken_term(taken@), |x: int| 1int, g as int);
        lemma_sum_ones(g as int);
    }
    loop
        invariant
            g == keys@.len(),
            g == bytes@.len(),
            g == files@.len(),
            taken@.len() == g,
            forall|a: int, b: int| 0 <= a < g && 0 <= b < g && a != b ==> ext_view(#[trigger] keys@[a]) != ext_view(#[trigger] keys@[b]),
            forall|i: int| 0 <= i < g ==> (#[trigger] keys@[i] matches Some(k) ==> k.view().len() > 0),
            order@.no_duplicates(),
            forall|a: int| 0 <= a < order@.len() ==> (#[trigger] order@[a]) < g,
            forall|x: int| 0 <= x < g ==> (#[trigger] taken@[x] <==> order@.contains(x as usize)),
            forall|a: int, x: int| 0 <= a < order@.len() && 0 <= x < g && !#[trigger] taken@[x]
                ==> group_before(bytes@, keys@, #[trigger] order@[a] as int, x),
            forall|a: int, b: int| 0 <= a < b < order@.len() ==> group_before(bytes@, keys@, #[trigger] order@[a] as int, #[trigger] order@[b] as int),
            0 <= sum_to(untaken_term(taken@), g as int),
        ensures
            forall|x: int| 0 <= x < g ==> #[trigger] taken@[x],
        decreases sum_to(untaken_term(taken@), g as int),
    {
        let mut best: Option<usize> = None;
        let mut j: usize = 0;
        while j < g
            invariant
                j <= g,
                g == keys@.len(),
                g == bytes@.len(),
                taken@.len() == g,
                forall|a: int, b: int| 0 <= a < g && 0 <= b < g && a != b ==> ext_view(#[trigger] keys@[a]) != ext_view(#[trigger] keys@[b]),
                forall|i: int| 0 <= i < g ==> (#[trigger] keys@[i] matches Some(k) ==> k.view().len() > 0),
                best matches Some(b) ==> b < j && !taken@[b as int],
                best is None ==> forall|x: int| 0 <= x < j ==> #[trigger] taken@[x],
                best matches Some(b) ==> forall|x: int| 0 <= x < j && !#[trigger] taken@[x] && x != b ==> group_before(bytes@, keys@, b as int, x),
            decreases g - j,
        {
            if !taken[j] {
                let better = match best {
                    None => true,
                    Some(b) => before_exec(&bytes, &keys, j, b),
                };
                if better {
                    proof {
                        if best is Some {
                            let b = best->0 as int;
                            assert forall|x: int| 0 <= x < j && !#[trigger] taken@[x] && x != j implies group_before(bytes@, keys@, j as int, x) by {
                                if x != b {
                                    lemma_group_before_trans(bytes@, keys@, j as int, b, x);
                                }
                            }
                        }
                    }
                    best = Some(j);
                } else {
                    proof {
                        let b = best->0 as int;
                        lemma_group_before_total(bytes@, keys@, j as int, b);
                    }
                }
            }
            j = j + 1;
        }
        match best {
            None => {
                break;
            },
            Some(b) => {
                let ghost before_taken = taken@;
                let ghost old_order = order@;
                proof {
                    assert(!order@.contains(b));
                    crate::sums::lemma_sum_point(untaken_term(before_taken), untaken_term(before_taken.update(b as int, true)), b as int, g as int);
                }
                taken.set(b, true);
                order.push(b);
                proof {
                    assert(taken@ == before_taken.update(b as int, true));
                    crate::sums::lemma_sum_nonneg(untaken_term(taken@), g as int);
                    assert forall|x: int| 0 <= x < g implies (#[trigger] taken@[x] <==> order@.contains(x as usize)) by {
                        if x == b {
                            assert(order@[order@.len() - 1] == b);
                        } else {
                            assert(before_taken[x] <==> old_order.contains(x as usize));
                            assert(order@ == old_order.push(b));
                            if order@.contains(x as usize) {
                                let a = choose|a: int| 0 <= a < order@.len() && order@[a] == x as usize;
                                assert(a < old_order.len());
                                assert(old_order[a] == x as usize);
                            }
                            if old_order.contains(x as usize) {
                                let a = choose|a: int| 0 <= a < old_order.len() && old_order[a] == x as usize;
                                assert(order@[a] == x as usize);
                            }
                        }
                    }
                }
            },
        }
    }
    proof {
        assert forall|x: int| 0 <= x < g implies #[trigger] order@.contains(x as usize) by {
            assert(taken@[x]);
        }
    }
    let mut types: Vec<TypeStat> = Vec::new();
    let mut a: usize = 0;
    while a < order.len()
        invariant
            a <= order@.len(),
            types@.len() == a,
            forall|c: int| 0 <= c < order@.len() ==> (#[trigger] order@[c]) < g,
            g == keys@.len(),
            g == bytes@.len(),
            g == files@.len(),
            forall|c: int| 0 <= c < a ==> {
                let s = #[trigger] types@[c];
                let o = order@[c] as int;
                &&& ext_view(s.ext) == ext_view(keys@[o])
                &&& s.bytes == bytes@[o]
                &&& s.files == files@[o]
                &&& s.category == group_category(ext_view(keys@[o]))
            },
        decreases order@.len() - a,
    {
        let o = order[a];
        let category = match &keys[o] {
            Some(k) => categorize_ext(k),
            None => Category::Other,
        };
        types.push(TypeStat { ext: clone_ext(&keys[o]), category, bytes: bytes[o], files: files[o] });
        a = a + 1;
    }
    proof {
        assert forall|c: int, d: int| 0 <= c < d < types@.len() implies stat_before(#[trigger] types@[c], #[trigger] types@[d]) by {
            assert(group_before(bytes@, keys@, order@[c] as int, order@[d] as int));
        }
        assert forall|c: int, d: int| 0 <= c < types@.len() && 0 <= d < types@.len() && c != d
            implies ext_view(#[trigger] types@[c].ext) != ext_view(#[trigger] types@[d].ext) by {
            assert(order@[c] != order@[d]);
        }
        assert forall|x: int| #[trigger] counted(t, rt, hide_system, x) implies exists|c: int|
            0 <= c < types@.len() && ext_view(#[trigger] types@[c].ext) == key_of(t.name_view(x)) by {
            let gi = choose|gi: int| 0 <= gi < keys@.len() && ext_view(#[trigger] keys@[gi]) == key_of(t.name_view(x));
            assert(order@.contains(gi as usize));
            let c = choose|c: int| 0 <= c < order@.len() && order@[c] == gi as usize;
            assert(ext_view(types@[c].ext) == ext_view(keys@[gi]));
        }
        lemma_groups_share(t, rt, hide_system, types@, slots);
        crate::sums::lemma_sum_ext(|i: int| types@[i].bytes as int, |i: int| sum_to(bytes_term(t, rt, hide_system, ext_view(types@[i].ext)), slots), types@.len() as int);
        crate::sums::lemma_sum_ext(|i: int| types@[i].files as int, |i: int| sum_to(files_term(t, rt, hide_system, ext_view(types@[i].ext)), slots), types@.len() as int);
    }
    TypeBreakdown { types, total_bytes, total_files }
}

/// Over the first `n` slots, the groups' byte and file sums share out the
/// sums over all counted files: every counted file falls in exactly one
/// group.
proof fn lemma_groups_share(t: Tree, rt: int, hs: bool, ts: Seq<TypeStat>, n: int)
    requires
        0 <= n,
        forall|i: int, j: int| 0 <= i < ts.len() && 0 <= j < ts.len() && i != j
            ==> ext_view(#[trigger] ts[i].ext) != ext_view(#[trigger] ts[j].ext),
        forall|m: int| #[trigger] counted(t, rt, hs, m) ==> exists|i: int|
            0 <= i < ts.len() && ext_view(#[trigger] ts[i].ext) == key_of(t.name_view(m)),
    ensures
        sum_to(|i: int| sum_to(bytes_term(t, rt, hs, ext_view(ts[i].ext)), n), ts.len() as int) == sum_to(all_bytes_term(t, rt, hs), n),
        sum_to(|i: int| sum_to(files_term(t, rt, hs, ext_view(ts[i].ext)), n), ts.len() as int) == sum_to(all_files_term(t, rt, hs), n),
    decreases n,
{
    let k = ts.len() as int;
    let fb = |i: int| sum_to(bytes_term(t, rt, hs, ext_view(ts[i].ext)), n);
    let ff = |i: int| sum_to(files_term(t, rt, hs, ext_view(ts[i].ext)), n);
    if n == 0 {
        lemma_sum_zero(fb, k);
        lemma_sum_zero(ff, k);
    } else {
        lemma_groups_share(t, rt, hs, ts, n - 1);
        let pb = |i: int| sum_to(bytes_term(t, rt, hs, ext_view(ts[i].ext)), n - 1);
        let pf = |i: int| sum_to(files_term(t, rt, hs, ext_view(ts[i].ext)), n - 1);
        let gb = |i: int| bytes_term(t, rt, hs, ext_view(ts[i].ext))(n - 1);
        let gf = |i: int| files_term(t, rt, hs, ext_view(ts[i].ext))(n - 1);
        crate::sums::lemma_sum_add(pb, gb, fb, k);
        crate::sums::lemma_sum_add(pf, gf, ff, k);
        let m = n - 1;
        if counted(t, rt, hs, m) {
            let w = choose|i: int| 0 <= i < ts.len() && ext_view(#[trigger] ts[i].ext) == key_of(t.name_view(m));
            assert forall|i: int| 0 <= i < k && i != w implies #[trigger] gb(i) == 0 && gf(i) == 0 by {
                assert(ext_view(ts[i].ext) != ext_view(ts[w].ext));
            }
            crate::sums::lemma_sum_single(gb, w, k);
            crate::sums::lemma_sum_single(gf, w, k);
        } else {
            lemma_sum_zero(gb, k);
            lemma_sum_zero(gf, k);
        }
    }
}

/// One per group not yet listed.
spec fn untaken_term(taken: Seq<bool>) -> spec_fn(int) -> int {
    |x: int| if 0 <= x < taken.len() && !taken[x] { 1int } else { 0 }
}

proof fn lemma_sum_ones(k: int)
    requires
        0 <= k,
    ensures
        sum_to(|x: int| 1int, k) == k,
    decreases k,
{
    if k > 0 {
        lemma_sum_ones(k - 1);
    }
}

/// Group `a` is listed before group `b`.
spec fn group_before(bytes: Seq<u64>, keys: Seq<Option<ExtKey>>, a: int, b: int) -> bool {
    ||| bytes[a] > bytes[b]
    ||| (bytes[a] == bytes[b] && text_lt(ext_text(ext_view(keys[a])), ext_text(ext_view(keys[b]))))
}

proof fn lemma_group_before_trans(bytes: Seq<u64>, keys: Seq<Option<ExtKey>>, a: int, b: int, c: int)
    requires
        group_before(bytes, keys, a, b),
        group_before(bytes, keys, b, c),
    ensures
        group_before(bytes, keys, a, c),
{
    if bytes[a] == bytes[b] && bytes[b] == bytes[c] {
        lemma_text_lt_trans(ext_text(ext_view(keys[a])), ext_text(ext_view(keys[b])), ext_text(ext_view(keys[c])));
    }
}

proof fn lemma_group_before_total(bytes: Seq<u64>, keys: Seq<Option<ExtKey>>, a: int, b: int)
    requires
        ext_view(keys[a]) != ext_view(keys[b]),
        keys[a] matches Some(k) ==> k.view().len() > 0,
        keys[b] matches Some(k) ==> k.view().len() > 0,
        !group_before(bytes, keys, a, b),
    ensures
        group_before(bytes, keys, b, a),
{
    lemma_ext_text_injective(ext_view(keys[a]), ext_view(keys[b]));
    lemma_text_lt_total(ext_text(ext_view(keys[a])), ext_text(ext_view(keys[b])));
}

/// Distinct extensions sort by distinct texts (a present key is never
/// empty).
proof fn lemma_ext_text_injective(a: Option<Seq<char>>, b: Option<Seq<char>>)
    requires
        a != b,
        a matches Some(x) ==> x.len() > 0,
        b matches Some(y) ==> y.len() > 0,
    ensures
        ext_text(a) != ext_text(b),
{
}

fn ext_str(e: &Option<ExtKey>) -> (r: &str)
    ensures
        r@ == ext_text(ext_view(*e)),
{
    match e {
        Some(k) => k.as_str(),
        None => {
            proof {
                reveal_strlit("");
            }
            ""
        },
    }
}

fn before_exec(bytes: &Vec<u64>, keys: &Vec<Option<ExtKey>>, a: usize, b: usize) -> (r: bool)
    requires
        a < bytes@.len(),
        b < bytes@.len(),
        a < keys@.len(),
        b < keys@.len(),
    ensures
        r == group_before(bytes@, keys@, a as int, b as int),
{
    bytes[a] > bytes[b] || (bytes[a] == bytes[b] && text_less(ext_str(&keys[a]), ext_str(&keys[b])))
}

/// A file's ranking pair: its size, then its id.
pub open spec fn file_pair(t: Tree, m: int) -> (u64, u32) {
    (t.node_view(m).size, m as u32)
}

/// The `n` largest files a walk from `root` counts, size-descending (ties
/// by ascending id).
pub fn largest_files(tree: &Tree, root: NodeId, n: usize, hide_system: bool) -> (r: Vec<NodeId>)
    requires
        tree.wf(),
    ensures
        r@.len() == min_len(n, sum_to(all_files_term(*tree, root as int, hide_system), tree.slots() as int) as nat),
        r@.no_duplicates(),
        forall|i: int| 0 <= i < r@.len() ==> counted(*tree, root as int, hide_system, #[trigger] r@[i] as int),
        forall|x: int, i: int| #[trigger] counted(*tree, root as int, hide_system, x) && !r@.contains(x as u32) && 0 <= i < r@.len()
            ==> ranks_below(file_pair(*tree, x), file_pair(*tree, #[trigger] r@[i] as int)),
        forall|i: int, j: int| 0 <= i < j < r@.len() ==> listed_before(file_pair(*tree, #[trigger] r@[i] as int), file_pair(*tree, #[trigger] r@[j] as int)),
{
    let ghost t = *tree;
    let ghost rt = root as int;
    let len = tree.len();
    proof {
        t.lemma_slots_bound();
    }
    let mut hits: Vec<(u64, u32)> = Vec::new();
    let end: usize = if (root as usize) < len { len } else { 0 };
    let mut m: usize = 0;
    while m < end
        invariant
            t == *tree,
            t.wf(),
            rt == root as int,
            len == t.slots(),
            len <= 0xFFFF_FFFF,
            end <= len,
            end > 0 ==> root < len,
            end == 0 ==> forall|x: int| 0 <= x < len ==> !counted(t, rt, hide_system, x),
            m <= end,
            hits@.len() == sum_to(all_files_term(t, rt, hide_system), m as int),
            forall|i: int| 0 <= i < hits@.len() ==> (#[trigger] hits@[i]).1 < m && counted(t, rt, hide_system, hits@[i].1 as int)
                && hits@[i] == file_pair(t, hits@[i].1 as int),
            forall|i: int, j: int| 0 <= i < j < hits@.len() ==> (#[trigger] hits@[i]).1 < (#[trigger] hits@[j]).1,
            forall|x: int| 0 <= x < m && #[trigger] counted(t, rt, hide_system, x) ==> hits@.contains(file_pair(t, x)),
        decreases end - m,
    {
        let id = m as NodeId;
        let ghost old_hits = hits@;
        if tree.reaches_from(root, id, hide_system) && !tree.node(id).is_dir() {
            hits.push((tree.node(id).size, id));
        }
        proof {
            assert forall|x: int| 0 <= x < m + 1 && #[trigger] counted(t, rt, hide_system, x) implies hits@.contains(file_pair(t, x)) by {
                if x == m {
                    assert(hits@[hits@.len() - 1] == file_pair(t, x));
                } else {
                    assert(old_hits.contains(file_pair(t, x)));
                    let i = choose|i: int| 0 <= i < old_hits.len() && old_hits[i] == file_pair(t, x);
                    assert(hits@[i] == file_pair(t, x));
                }
            }
        }
        m = m + 1;
    }
    proof {
        if end == 0 {
            lemma_sum_zero(all_files_term(t, rt, hide_system), len as int);
        }
        assert(distinct_ids(hits@)) by {
            assert forall|i: int, j: int| 0 <= i < hits@.len() && 0 <= j < hits@.len() && i != j implies hits@[i].1 != hits@[j].1 by {
                if i < j {
                    assert(hits@[i].1 < hits@[j].1);
                } else {
                    assert(hits@[j].1 < hits@[i].1);
                }
            }
        }
    }
    if n == 0 {
        return Vec::new();
    }
    let top = top_hits(&hits, n);
    let mut out: Vec<NodeId> = Vec::new();
    let mut i: usize = 0;
    while i < top.len()
        invariant
            i <= top@.len(),
            out@.len() == i,
            forall|a: int| 0 <= a < i ==> #[trigger] out@[a] == top@[a].1,
        decreases top@.len() - i,
    {
        out.push(top[i].1);
        i = i + 1;
    }
    proof {
        let r = out@;
        assert forall|a: int| 0 <= a < r.len() implies #[trigger] top@[a] == file_pair(t, r[a] as int) by {
            assert(hits@.contains(top@[a]));
            let k = choose|k: int| 0 <= k < hits@.len() && hits@[k] == top@[a];
            assert(hits@[k] == file_pair(t, hits@[k].1 as int));
        }
        assert forall|a: int, b: int| 0 <= a < r.len() && 0 <= b < r.len() && a != b implies r[a] != r[b] by {
            assert(top@[a] == file_pair(t, r[a] as int));
            assert(top@[b] == file_pair(t, r[b] as int));
        }
        assert forall|a: int| 0 <= a < r.len() implies counted(t, rt, hide_system, #[trigger] r[a] as int) by {
            assert(hits@.contains(top@[a]));
            let k = choose|k: int| 0 <= k < hits@.len() && hits@[k] == top@[a];
        }
        assert forall|x: int, b: int| #[trigger] counted(t, rt, hide_system, x) && !r.contains(x as u32) && 0 <= b < r.len()
            implies ranks_below(file_pair(t, x), file_pair(t, #[trigger] r[b] as int)) by {
            assert(hits@.contains(file_pair(t, x)));
            if top@.contains(file_pair(t, x)) {
                let a = choose|a: int| 0 <= a < top@.len() && top@[a] == file_pair(t, x);
                assert(r[a] == x as u32);
            }
            assert(top@.contains(top@[b]));
        }
        assert forall|a: int, b: int| 0 <= a < b < r.len() implies listed_before(file_pair(t, #[trigger] r[a] as int), file_pair(t, #[trigger] r[b] as int)) by {
            assert(top@[a] == file_pair(t, r[a] as int));
            assert(top@[b] == file_pair(t, r[b] as int));
        }
    }
    out
}

/// A prefix of a non-negative sum is at most the whole.
proof fn lemma_sum_prefix_le(f: spec_fn(int) -> int, k: int, n: int)
    requires
        0 <= k <= n,
        forall|i: int| 0 <= i < n ==> #[trigger] f(i) >= 0,
    ensures
        sum_to(f, k) <= sum_to(f, n),
    decreases n - k,
{
    if k < n {
        lemma_sum_prefix_le(f, k, n - 1);
    }
}

} // verus!
