//! Name interning: every unique path component is stored once in a single
//! byte buffer. Nodes refer to names as (offset, len) pairs.

use std::collections::hash_map::DefaultHasher;
use std::collections::HashMap;
use std::hash::Hasher;

use vstd::prelude::*;
use vstd::std_specs::hash::DefaultHasherAdditionalSpecFns;
use vstd::string::StringSliceAdditionalSpecFns;
use vstd::utf8::*;

use crate::text::{boundary, byte_len, bytes_of, lemma_boundary_extend, lemma_boundary_shift, lemma_encode_concat, push_str, substr};

verus! {

broadcast use vstd::utf8::group_utf8_lib, vstd::std_specs::hash::group_hash_axioms;

/// A reference to an interned name: offset + length into the shared buffer.
#[derive(Clone, Copy, PartialEq, Eq, Debug, Structural)]
pub struct NameRef {
    pub off: u32,
    pub len: u16,
}

/// `r` is a slice of `bytes` that starts and ends between characters.
pub open spec fn ref_ok(bytes: Seq<u8>, r: NameRef) -> bool {
    &&& r.off + r.len <= bytes.len()
    &&& boundary(bytes, r.off as int)
    &&& boundary(bytes, r.off + r.len)
}

/// The bytes `r` names inside `bytes`.
pub open spec fn ref_bytes(bytes: Seq<u8>, r: NameRef) -> Seq<u8> {
    bytes.subrange(r.off as int, r.off + r.len)
}

/// The bucket a name's bytes hash to.
pub open spec fn name_hash(name: Seq<u8>) -> u64 {
    DefaultHasher::spec_finish(seq![name])
}

/// A valid reference stays valid, naming the same bytes, when the buffer grows.
pub proof fn lemma_ref_extend(a: Seq<u8>, b: Seq<u8>, r: NameRef)
    requires
        valid_utf8(a),
        valid_utf8(b),
        ref_ok(a, r),
    ensures
        ref_ok(a + b, r),
        ref_bytes(a + b, r) == ref_bytes(a, r),
{
    lemma_boundary_extend(a, b, r.off as int);
    lemma_boundary_extend(a, b, r.off + r.len);
    assert(ref_bytes(a + b, r) =~= ref_bytes(a, r));
}

pub struct NameInterner {
    bytes: String,
    /// name hash -> candidate refs (collision chains verified against `bytes`).
    map: HashMap<u64, Vec<NameRef>>,
    /// The names the lookup currently knows, each with its reference.
    index: Ghost<Map<Seq<u8>, NameRef>>,
}

impl NameInterner {
    /// The stored name bytes.
    pub closed spec fn bytes_view(&self) -> Seq<u8> {
        bytes_of(self.bytes@)
    }

    /// The names the lookup knows (each stored once), with their references.
    pub closed spec fn index_view(&self) -> Map<Seq<u8>, NameRef> {
        self.index@
    }

    /// The lookup table: name hash to the references stored under it.
    pub closed spec fn table(&self) -> Map<u64, Vec<NameRef>> {
        self.map@
    }

    pub closed spec fn wf(&self) -> bool {
        &&& forall|c: Seq<u8>| #[trigger] self.index@.contains_key(c) ==> {
            &&& ref_ok(bytes_of(self.bytes@), self.index@[c])
            &&& ref_bytes(bytes_of(self.bytes@), self.index@[c]) == c
            &&& self.map@.contains_key(name_hash(c))
            &&& self.map@[name_hash(c)]@.contains(self.index@[c])
        }
        &&& forall|h: u64, k: int| #![trigger self.map@[h]@[k]]
            self.map@.contains_key(h) && 0 <= k < self.map@[h]@.len() ==> {
                let r = self.map@[h]@[k];
                let c = ref_bytes(bytes_of(self.bytes@), r);
                &&& ref_ok(bytes_of(self.bytes@), r)
                &&& self.index@.contains_key(c)
                &&& self.index@[c] == r
                &&& name_hash(c) == h
            }
    }

    /// Every indexed reference is a valid slice naming its own key.
    pub proof fn lemma_index(&self)
        requires
            self.wf(),
        ensures
            forall|c: Seq<u8>| #[trigger] self.index_view().contains_key(c) ==> ref_ok(self.bytes_view(), self.index_view()[c])
                && ref_bytes(self.bytes_view(), self.index_view()[c]) == c,
            valid_utf8(self.bytes_view()),
            forall|c: Seq<u8>| #[trigger] self.index_view().contains_key(c) ==> self.table().contains_key(name_hash(c)),
            forall|h: u64| #[trigger] self.table().contains_key(h) && self.table()[h]@.len() > 0 ==> exists|c: Seq<u8>|
                #[trigger] self.index_view().contains_key(c) && name_hash(c) == h,
    {
        encode_utf8_valid_utf8(self.bytes@);
        assert forall|h: u64| #[trigger] self.table().contains_key(h) && self.table()[h]@.len() > 0 implies exists|c: Seq<u8>|
            #[trigger] self.index_view().contains_key(c) && name_hash(c) == h by {
            let r = self.map@[h]@[0];
            let c = ref_bytes(bytes_of(self.bytes@), r);
            assert(self.index_view().contains_key(c));
        }
    }

    /// An interned name stays readable: a reference valid in this
    /// interner names the same bytes in a later one whose buffer is this
    /// one's with valid text appended (`intern` appends a name or nothing,
    /// `release_index` keeps the buffer), so `get` gives the name back after
    /// any later calls, one step at a time.
    pub proof fn lemma_stays_readable(&self, later: &NameInterner, more: Seq<u8>, r: NameRef)
        requires
            self.wf(),
            ref_ok(self.bytes_view(), r),
            valid_utf8(more),
            later.bytes_view() == self.bytes_view() + more,
        ensures
            ref_ok(later.bytes_view(), r),
            ref_bytes(later.bytes_view(), r) == ref_bytes(self.bytes_view(), r),
    {
        self.lemma_index();
        lemma_ref_extend(self.bytes_view(), more, r);
    }

    pub fn new() -> (r: Self)
        ensures
            r.wf(),
            r.bytes_view() == Seq::<u8>::empty(),
            r.index_view() == Map::<Seq<u8>, NameRef>::empty(),
    {
        let r = NameInterner { bytes: String::new(), map: HashMap::new(), index: Ghost(Map::empty()) };
        proof {
            assert(bytes_of(r.bytes@) =~= Seq::<u8>::empty());
        }
        r
    }

    /// Interns `name`, returning a stable reference. `name` must be at most
    /// u16::MAX bytes.
    pub fn intern(&mut self, name: &str) -> (r: NameRef)
        requires
            old(self).wf(),
            name.spec_bytes().len() <= 65535,
            old(self).index_view().contains_key(name.spec_bytes()) || old(self).bytes_view().len()
                <= u32::MAX,
        ensures
            final(self).wf(),
            ref_ok(final(self).bytes_view(), r),
            ref_bytes(final(self).bytes_view(), r) == name.spec_bytes(),
            old(self).index_view().contains_key(name.spec_bytes()) ==> {
                &&& r == old(self).index_view()[name.spec_bytes()]
                &&& final(self).bytes_view() == old(self).bytes_view()
                &&& final(self).index_view() == old(self).index_view()
            },
            !old(self).index_view().contains_key(name.spec_bytes()) ==> {
                &&& r == NameRef { off: old(self).bytes_view().len() as u32, len: name.spec_bytes().len() as u16 }
                &&& final(self).bytes_view() == old(self).bytes_view() + name.spec_bytes()
                &&& final(self).index_view() == old(self).index_view().insert(name.spec_bytes(), r)
            },
    {
        let ghost nb = name.spec_bytes();
        let ghost b = bytes_of(self.bytes@);
        proof {
            encode_utf8_valid_utf8(self.bytes@);
            encode_utf8_valid_utf8(name@);
        }
        let h = hash_name(name);
        let found = match self.map.get(&h) {
            Some(candidates) => {
                let mut i: usize = 0;
                let mut hit: Option<NameRef> = None;
                while i < candidates.len() && hit.is_none()
                    invariant
                        self.wf(),
                        b == bytes_of(self.bytes@),
                        nb == name.spec_bytes(),
                        self.map@.contains_key(h),
                        candidates@ == self.map@[h]@,
                        0 <= i <= candidates@.len(),
                        hit is None ==> forall|k: int| 0 <= k < i ==> ref_bytes(b, #[trigger] candidates@[k]) != nb,
                        hit matches Some(r) ==> self.index@.contains_key(nb) && self.index@[nb] == r,
                    decreases candidates@.len() - i + (if hit is None { 1int } else { 0int }),
                {
                    let r = candidates[i];
                    proof {
                        assert(self.map@[h]@[i as int] == r);
                    }
                    let s = self.get(r);
                    if str_eq(s, name) {
                        proof {
                            assert(ref_bytes(b, r) == nb);
                        }
                        hit = Some(r);
                    } else {
                        proof {
                            assert(ref_bytes(b, candidates@[i as int]) != nb);
                        }
                        i = i + 1;
                    }
                }
                proof {
                    if hit is None {
                        if self.index@.contains_key(nb) {
                            let r = self.index@[nb];
                            assert(name_hash(nb) == h);
                            let k = choose|k: int| 0 <= k < candidates@.len() && candidates@[k] == r;
                            assert(ref_bytes(b, candidates@[k]) == nb);
                        }
                    }
                }
                hit
            },
            None => {
                proof {
                    if self.index@.contains_key(nb) {
                        assert(name_hash(nb) == h);
                    }
                }
                None
            },
        };
        if let Some(r) = found {
            proof {
                assert(self.index@.contains_key(nb));
            }
            return r;
        }
        assert(!self.index@.contains_key(nb));
        let off = byte_len(self.bytes.as_str()) as u32;
        let r = NameRef { off, len: byte_len(name) as u16 };
        let ghost old_chars = self.bytes@;
        let ghost old_map = self.map@;
        let ghost old_index = self.index@;
        push_str(&mut self.bytes, name);
        let mut chain = match self.map.remove(&h) {
            Some(v) => v,
            None => Vec::new(),
        };
        let ghost old_chain = chain@;
        chain.push(r);
        self.map.insert(h, chain);
        proof {
            self.index@ = old_index.insert(nb, r);
            lemma_encode_concat(old_chars, name@);
            let b2 = bytes_of(self.bytes@);
            assert(b2 == b + nb);
            lemma_boundary_extend(b, nb, 0);
            lemma_boundary_shift(b, nb, nb.len() as int);
            assert(ref_ok(b2, r));
            assert(ref_bytes(b2, r) =~= nb);
            assert forall|c: Seq<u8>| #[trigger] self.index@.contains_key(c) implies {
                &&& ref_ok(b2, self.index@[c])
                &&& ref_bytes(b2, self.index@[c]) == c
                &&& self.map@.contains_key(name_hash(c))
                &&& self.map@[name_hash(c)]@.contains(self.index@[c])
            } by {
                if c != nb {
                    lemma_ref_extend(b, nb, old_index[c]);
                    if name_hash(c) == h {
                        let k = choose|k: int| 0 <= k < old_map[h]@.len() && old_map[h]@[k] == old_index[c];
                        assert(self.map@[h]@[k] == old_index[c]);
                    }
                } else {
                    assert(self.map@[h]@[old_chain.len() as int] == r);
                }
            }
            assert forall|hh: u64, k: int| #![trigger self.map@[hh]@[k]]
                self.map@.contains_key(hh) && 0 <= k < self.map@[hh]@.len() implies {
                    let rr = self.map@[hh]@[k];
                    let c = ref_bytes(b2, rr);
                    &&& ref_ok(b2, rr)
                    &&& self.index@.contains_key(c)
                    &&& self.index@[c] == rr
                } by {
                let rr = self.map@[hh]@[k];
                if hh == h && k == old_chain.len() {
                    assert(rr == r);
                    assert(ref_bytes(b2, rr) == nb);
                } else {
                    assert(old_map.contains_key(hh) && old_map[hh]@[k] == rr);
                    let c = ref_bytes(b, rr);
                    lemma_ref_extend(b, nb, rr);
                    assert(old_index.contains_key(c));
                    assert(c != nb);
                }
            }
        }
        r
    }

    pub fn get(&self, r: NameRef) -> (s: &str)
        requires
            ref_ok(self.bytes_view(), r),
        ensures
            s.spec_bytes() == ref_bytes(self.bytes_view(), r),
    {
        substr(self.bytes.as_str(), r.off as usize, r.len as usize)
    }

    /// Drops the lookup; names already stored stay readable.
    pub fn release_index(&mut self) -> (dead: HashMap<u64, Vec<NameRef>>)
        requires
            old(self).wf(),
        ensures
            final(self).wf(),
            final(self).bytes_view() == old(self).bytes_view(),
            final(self).index_view() == Map::<Seq<u8>, NameRef>::empty(),
            dead@ == old(self).table(),
            final(self).table() == Map::<u64, Vec<NameRef>>::empty(),
    {
        let mut dead = HashMap::new();
        std::mem::swap(&mut dead, &mut self.map);
        proof {
            self.index@ = Map::empty();
        }
        dead
    }

    /// Total bytes of unique name data stored.
    pub fn bytes_used(&self) -> (n: usize)
        ensures
            n == self.bytes_view().len(),
    {
        byte_len(self.bytes.as_str())
    }
}

/// Byte-wise equality of two strings.
pub fn str_eq(a: &str, b: &str) -> (r: bool)
    ensures
        r == (a.spec_bytes() == b.spec_bytes()),
{
    let x = a.as_bytes();
    let y = b.as_bytes();
    if x.len() != y.len() {
        proof {
            assert(x@.len() != y@.len());
        }
        return false;
    }
    let mut i: usize = 0;
    while i < x.len()
        invariant
            x@ == a.spec_bytes(),
            y@ == b.spec_bytes(),
            x@.len() == y@.len(),
            0 <= i <= x@.len(),
            forall|k: int| 0 <= k < i ==> x@[k] == y@[k],
        decreases x@.len() - i,
    {
        if x[i] != y[i] {
            proof {
                assert(x@[i as int] != y@[i as int]);
            }
            return false;
        }
        i = i + 1;
    }
    proof {
        assert(x@ =~= y@);
    }
    true
}

fn hash_name(name: &str) -> (h: u64)
    ensures
        h == name_hash(name.spec_bytes()),
{
    let mut hasher = DefaultHasher::new();
    hasher.write(name.as_bytes());
    proof {
        assert(hasher@ =~= seq![name.spec_bytes()]);
    }
    hasher.finish()
}

} // verus!
