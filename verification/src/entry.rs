//! Scan output data model: what any scanner backend emits and what
//! `TreeBuilder` consumes.

use vstd::prelude::*;
use vstd::string::StringSliceAdditionalSpecFns;
use vstd::utf8::*;

use crate::text::{byte_len, boundary, bytes_of, lemma_boundary_extend, lemma_boundary_shift, lemma_encode_concat, push_str, substr};

verus! {

broadcast use vstd::utf8::group_utf8_lib;

/// Bit flags describing a scanned entry. Stored per node (u16).
#[derive(Clone, Copy, PartialEq, Eq, Debug, Default, Structural)]
pub struct EntryFlags(pub u16);

impl EntryFlags {
    pub open spec fn spec_dir() -> EntryFlags {
        EntryFlags(1)
    }

    #[verifier::when_used_as_spec(spec_dir)]
    pub fn dir() -> (r: EntryFlags)
        ensures
            r == EntryFlags(1u16),
    {
        EntryFlags(1)
    }
    /// Symlink, junction, or other name-surrogate reparse point. Never descended.
    pub open spec fn spec_reparse() -> EntryFlags {
        EntryFlags(2)
    }

    #[verifier::when_used_as_spec(spec_reparse)]
    pub fn reparse() -> (r: EntryFlags)
        ensures
            r == EntryFlags(2u16),
    {
        EntryFlags(2)
    }
    /// Directory could not be read (access denied, vanished mid-scan, ...).
    pub open spec fn spec_error() -> EntryFlags {
        EntryFlags(4)
    }

    #[verifier::when_used_as_spec(spec_error)]
    pub fn error() -> (r: EntryFlags)
        ensures
            r == EntryFlags(4u16),
    {
        EntryFlags(4)
    }
    /// NTFS-compressed (MFT backend only).
    pub open spec fn spec_compressed() -> EntryFlags {
        EntryFlags(8)
    }

    #[verifier::when_used_as_spec(spec_compressed)]
    pub fn compressed() -> (r: EntryFlags)
        ensures
            r == EntryFlags(8u16),
    {
        EntryFlags(8)
    }
    /// Sparse file (MFT backend only).
    pub open spec fn spec_sparse() -> EntryFlags {
        EntryFlags(16)
    }

    #[verifier::when_used_as_spec(spec_sparse)]
    pub fn sparse() -> (r: EntryFlags)
        ensures
            r == EntryFlags(16u16),
    {
        EntryFlags(16)
    }
    /// Cloud placeholder, dehydrated (MFT backend only).
    pub open spec fn spec_placeholder() -> EntryFlags {
        EntryFlags(32)
    }

    #[verifier::when_used_as_spec(spec_placeholder)]
    pub fn placeholder() -> (r: EntryFlags)
        ensures
            r == EntryFlags(32u16),
    {
        EntryFlags(32)
    }
    /// One of several hardlinks to the same file record (MFT backend only).
    pub open spec fn spec_hardlink() -> EntryFlags {
        EntryFlags(64)
    }

    #[verifier::when_used_as_spec(spec_hardlink)]
    pub fn hardlink() -> (r: EntryFlags)
        ensures
            r == EntryFlags(64u16),
    {
        EntryFlags(64)
    }
    /// The filesystem's SYSTEM attribute is set.
    pub open spec fn spec_system() -> EntryFlags {
        EntryFlags(128)
    }

    #[verifier::when_used_as_spec(spec_system)]
    pub fn system() -> (r: EntryFlags)
        ensures
            r == EntryFlags(128u16),
    {
        EntryFlags(128)
    }

    pub open spec fn has(self, other: EntryFlags) -> bool {
        self.0 & other.0 == other.0
    }

    pub open spec fn spec_is_dir(self) -> bool {
        self.0 & 1u16 == 1u16
    }

    /// No flags set: not a directory.
    pub proof fn lemma_empty_not_dir()
        ensures
            !EntryFlags(0).spec_is_dir(),
    {
        assert(0u16 & 1u16 == 0u16) by (bit_vector);
    }

    pub fn contains(self, other: EntryFlags) -> (r: bool)
        ensures
            r == self.has(other),
    {
        self.0 & other.0 == other.0
    }

    pub fn insert(&mut self, other: EntryFlags)
        ensures
            final(self).0 == old(self).0 | other.0,
    {
        self.0 = self.0 | other.0;
    }

    pub fn remove(&mut self, other: EntryFlags)
        ensures
            final(self).0 == old(self).0 & !other.0,
    {
        self.0 = self.0 & !other.0;
    }

    pub fn union(self, other: EntryFlags) -> (r: EntryFlags)
        ensures
            r.0 == self.0 | other.0,
    {
        EntryFlags(self.0 | other.0)
    }

    pub fn is_dir(self) -> (r: bool)
        ensures
            r == self.spec_is_dir(),
    {
        self.contains(EntryFlags::dir())
    }
}

/// One scanned file or directory. Names live in the owning batch's `names`
/// buffer (`name_off..name_off + name_len`, in bytes).
#[derive(Clone, Copy, Debug)]
pub struct FileEntry {
    /// Dense id assigned by the scanner; doubles as the arena node index.
    pub path_id: u32,
    /// Parent's `path_id` (root: `parent_id == path_id == 0`).
    pub parent_id: u32,
    pub name_off: u32,
    pub name_len: u16,
    pub flags: EntryFlags,
    /// Logical size in bytes. Directories report 0.
    pub size: u64,
    /// On-disk allocated size.
    pub allocated_size: u64,
    /// Modification time, seconds since Unix epoch (0 if unavailable).
    pub mtime: i64,
}

/// `e`'s name range lies inside `bytes` and cuts it between characters.
pub open spec fn name_range_ok(bytes: Seq<u8>, e: FileEntry) -> bool {
    &&& e.name_off + e.name_len <= bytes.len()
    &&& boundary(bytes, e.name_off as int)
    &&& boundary(bytes, e.name_off + e.name_len)
}

/// The bytes of `e`'s name inside `bytes`.
pub open spec fn name_bytes(bytes: Seq<u8>, e: FileEntry) -> Seq<u8> {
    bytes.subrange(e.name_off as int, e.name_off + e.name_len)
}

/// The largest character boundary of `b` at or below `i`.
pub open spec fn last_boundary_at_most(b: Seq<u8>, i: nat) -> nat
    decreases i,
{
    if i == 0 || boundary(b, i as int) {
        i
    } else {
        last_boundary_at_most(b, (i - 1) as nat)
    }
}

proof fn lemma_last_boundary(b: Seq<u8>, i: nat)
    ensures
        last_boundary_at_most(b, i) <= i,
        boundary(b, last_boundary_at_most(b, i) as int),
    decreases i,
{
    if i != 0 && !boundary(b, i as int) {
        lemma_last_boundary(b, (i - 1) as nat);
    }
}

pub proof fn lemma_kept_len(b: Seq<u8>)
    ensures
        kept_len(b) <= 65535,
        kept_len(b) <= b.len(),
{
    if b.len() > 65535 {
        lemma_last_boundary(b, 65535);
    }
}

/// How many bytes of a name are kept: names longer than `u16::MAX` bytes are
/// cut at the last character boundary that fits.
pub open spec fn kept_len(b: Seq<u8>) -> nat {
    if b.len() <= 65535 {
        b.len()
    } else {
        last_boundary_at_most(b, 65535)
    }
}

/// A name stays readable: once an entry's range names bytes of a valid
/// UTF-8 buffer, appending more valid text to the buffer (all that `push`
/// ever does to it) keeps the range valid and naming the same bytes.
pub proof fn lemma_name_kept(b: Seq<u8>, more: Seq<u8>, e: FileEntry)
    requires
        valid_utf8(b),
        valid_utf8(more),
        name_range_ok(b, e),
    ensures
        name_range_ok(b + more, e),
        name_bytes(b + more, e) == name_bytes(b, e),
{
    lemma_boundary_extend(b, more, e.name_off as int);
    lemma_boundary_extend(b, more, e.name_off + e.name_len);
    assert(name_bytes(b + more, e) =~= name_bytes(b, e));
}

/// A batch of entries sharing one name buffer.
#[derive(Clone, Debug, Default)]
pub struct EntryBatch {
    pub names: String,
    pub entries: Vec<FileEntry>,
}

impl EntryBatch {
    /// Every entry's name range is a valid slice of `names`.
    pub open spec fn wf(&self) -> bool {
        forall|k: int| 0 <= k < self.entries@.len() ==> name_range_ok(bytes_of(self.names@), #[trigger] self.entries@[k])
    }

    pub fn with_capacity(entries: usize, name_bytes: usize) -> (r: Self)
        ensures
            r.names@ == Seq::<char>::empty(),
            r.entries@ == Seq::<FileEntry>::empty(),
            r.wf(),
    {
        EntryBatch { names: String::new(), entries: Vec::with_capacity(entries) }
    }

    /// Appends an entry, copying `name` into the shared buffer. Names longer
    /// than u16::MAX bytes are truncated at a character boundary.
    pub fn push(&mut self, name: &str, entry: FileEntry)
        requires
            bytes_of(old(self).names@).len() + kept_len(name.spec_bytes()) <= u32::MAX,
        ensures
            bytes_of(final(self).names@) == bytes_of(old(self).names@) + name.spec_bytes().subrange(
                0,
                kept_len(name.spec_bytes()) as int,
            ),
            final(self).entries@ == old(self).entries@.push(
                FileEntry {
                    name_off: bytes_of(old(self).names@).len() as u32,
                    name_len: kept_len(name.spec_bytes()) as u16,
                    ..entry
                },
            ),
            old(self).wf() ==> final(self).wf(),
            name_range_ok(bytes_of(final(self).names@), final(self).entries@.last()),
            name_bytes(bytes_of(final(self).names@), final(self).entries@.last()) == name.spec_bytes().subrange(
                0,
                kept_len(name.spec_bytes()) as int,
            ),
            old(self).names@.len() <= final(self).names@.len(),
            final(self).names@.take(old(self).names@.len() as int) == old(self).names@,
    {
        let t = truncate_to_u16(name);
        proof { lemma_kept_len(name.spec_bytes()); }
        let ghost old_bytes = bytes_of(self.names@);
        let off = byte_len(self.names.as_str());
        let len = byte_len(t);
        let mut entry = entry;
        entry.name_off = off as u32;
        entry.name_len = len as u16;
        let ghost old_names = self.names@;
        push_str(&mut self.names, t);
        proof {
            lemma_encode_concat(old_names, t@);
            let tb = t.spec_bytes();
            assert(bytes_of(self.names@) == old_bytes + tb);
            encode_utf8_valid_utf8(old_names);
            encode_utf8_valid_utf8(t@);
            let nb = bytes_of(self.names@);
            assert forall|k: int| 0 <= k < self.entries@.len() && old(self).wf() implies name_range_ok(nb, #[trigger] self.entries@[k]) by {
                let e = self.entries@[k];
                assert(name_range_ok(old_bytes, old(self).entries@[k]));
                lemma_boundary_extend(old_bytes, tb, e.name_off as int);
                lemma_boundary_extend(old_bytes, tb, e.name_off + e.name_len);
            }
            lemma_boundary_extend(old_bytes, tb, 0);
            lemma_boundary_shift(old_bytes, tb, tb.len() as int);
            lemma_boundary_shift(old_bytes, tb, 0);
            assert(nb.subrange(old_bytes.len() as int, (old_bytes.len() + tb.len()) as int) =~= tb);
            assert(self.names@.take(old_names.len() as int) =~= old_names);
        }
        self.entries.push(entry);
    }

    /// A later push never disturbs an earlier entry's name: in a batch made
    /// from this one by pushes (its entries and its text begin with this
    /// one's), every entry of this one still names a valid range holding the
    /// same bytes, so `name_of` gives the same name back.
    pub proof fn lemma_names_survive(&self, later: &EntryBatch)
        requires
            self.wf(),
            self.entries@.len() <= later.entries@.len(),
            later.entries@.take(self.entries@.len() as int) == self.entries@,
            self.names@.len() <= later.names@.len(),
            later.names@.take(self.names@.len() as int) == self.names@,
        ensures
            forall|k: int| 0 <= k < self.entries@.len() ==> {
                &&& name_range_ok(bytes_of(later.names@), #[trigger] later.entries@[k])
                &&& name_bytes(bytes_of(later.names@), later.entries@[k]) == name_bytes(bytes_of(self.names@), self.entries@[k])
            },
    {
        let n = self.names@.len() as int;
        let more = later.names@.skip(n);
        assert(later.names@ =~= self.names@ + more);
        lemma_encode_concat(self.names@, more);
        encode_utf8_valid_utf8(self.names@);
        encode_utf8_valid_utf8(more);
        assert forall|k: int| 0 <= k < self.entries@.len() implies {
            &&& name_range_ok(bytes_of(later.names@), #[trigger] later.entries@[k])
            &&& name_bytes(bytes_of(later.names@), later.entries@[k]) == name_bytes(bytes_of(self.names@), self.entries@[k])
        } by {
            assert(later.entries@[k] == later.entries@.take(self.entries@.len() as int)[k]);
            lemma_name_kept(bytes_of(self.names@), bytes_of(more), self.entries@[k]);
        }
    }

    /// The name of `entry`, a slice of `names`.
    pub fn name_of(&self, entry: &FileEntry) -> (r: &str)
        requires
            name_range_ok(bytes_of(self.names@), *entry),
        ensures
            r.spec_bytes() == name_bytes(bytes_of(self.names@), *entry),
    {
        substr(self.names.as_str(), entry.name_off as usize, entry.name_len as usize)
    }

    /// Whether every entry's name range is a valid slice of `names`.
    pub fn names_ok(&self) -> (r: bool)
        ensures
            r == self.wf(),
    {
        let s = self.names.as_str();
        let ghost b = bytes_of(self.names@);
        let blen = byte_len(s);
        proof {
            encode_utf8_valid_utf8(self.names@);
        }
        let mut k: usize = 0;
        while k < self.entries.len()
            invariant
                k <= self.entries@.len(),
                b == bytes_of(self.names@),
                blen == b.len(),
                s@ == self.names@,
                valid_utf8(b),
                forall|j: int| 0 <= j < k ==> name_range_ok(b, #[trigger] self.entries@[j]),
            decreases self.entries@.len() - k,
        {
            let e = &self.entries[k];
            let a = e.name_off as u64;
            let z = e.name_off as u64 + e.name_len as u64;
            if z > blen as u64 {
                return false;
            }
            proof {
                crate::text::lemma_boundary_is_char_boundary(b, a as int);
                crate::text::lemma_boundary_is_char_boundary(b, z as int);
            }
            if !s.is_char_boundary(a as usize) || !s.is_char_boundary(z as usize) {
                return false;
            }
            k = k + 1;
        }
        true
    }

    pub fn is_empty(&self) -> (r: bool)
        ensures
            r == (self.entries@.len() == 0),
    {
        self.entries.len() == 0
    }

    pub fn len(&self) -> (r: usize)
        ensures
            r == self.entries@.len(),
    {
        self.entries.len()
    }
}

/// `name` cut to at most u16::MAX bytes at a character boundary.
pub fn truncate_to_u16(name: &str) -> (r: &str)
    ensures
        r.spec_bytes() == name.spec_bytes().subrange(0, kept_len(name.spec_bytes()) as int),
{
    let ghost b = name.spec_bytes();
    proof {
        encode_utf8_valid_utf8(name@);
    }
    if byte_len(name) <= 65535 {
        proof {
            assert(b.subrange(0, b.len() as int) =~= b);
        }
        return name;
    }
    let mut end: usize = 65535;
    proof {
        crate::text::lemma_boundary_is_char_boundary(b, 0);
    }
    while !name.is_char_boundary(end)
        invariant
            end <= 65535 < b.len(),
            is_char_boundary(b, 0),
            valid_utf8(b),
            b == name.spec_bytes(),
            last_boundary_at_most(b, end as nat) == last_boundary_at_most(b, 65535),
        decreases end,
    {
        proof {
            crate::text::lemma_boundary_is_char_boundary(b, end as int);
        }
        end = end - 1;
        proof {
            crate::text::lemma_boundary_is_char_boundary(b, end as int);
        }
    }
    proof {
        crate::text::lemma_boundary_is_char_boundary(b, end as int);
    }
    let (head, _) = name.split_at(end);
    head
}

} // verus!
