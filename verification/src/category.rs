//! File-type categories: the treemap color key and the grouping of the
//! type-breakdown panel. A small closed set; `Category::index` gives the
//! palette slot the frontend uses.

use vstd::prelude::*;
use vstd::string::StringSliceAdditionalSpecFns;
use vstd::utf8::*;

use crate::text::{boundary, bytes_of, byte_len, chars_of, char_from_u32, lemma_boundary_shift, push_char, substr};

verus! {

broadcast use vstd::utf8::group_utf8_lib;

#[derive(Clone, Copy, Debug, PartialEq, Eq, Hash, Structural)]
pub enum Category {
    Directory,
    Video,
    Audio,
    Image,
    Archive,
    Document,
    Code,
    Executable,
    System,
    Data,
    Other,
}

pub const CATEGORY_COUNT: usize = 11;

/// The palette slot of a category: its place in the list above.
pub open spec fn palette_slot(c: Category) -> u8 {
    match c {
        Category::Directory => 0u8,
        Category::Video => 1,
        Category::Audio => 2,
        Category::Image => 3,
        Category::Archive => 4,
        Category::Document => 5,
        Category::Code => 6,
        Category::Executable => 7,
        Category::System => 8,
        Category::Data => 9,
        Category::Other => 10,
    }
}

impl Category {
    /// The palette slot of this category, `0..CATEGORY_COUNT`.
    pub fn index(self) -> (r: u8)
        ensures
            r < CATEGORY_COUNT,
            r == palette_slot(self),
    {
        match self {
            Category::Directory => 0,
            Category::Video => 1,
            Category::Audio => 2,
            Category::Image => 3,
            Category::Archive => 4,
            Category::Document => 5,
            Category::Code => 6,
            Category::Executable => 7,
            Category::System => 8,
            Category::Data => 9,
            Category::Other => 10,
        }
    }
}

/// A lowercased file extension (without the dot), at most 8 bytes.
#[derive(Clone, Debug, PartialEq, Eq, Hash)]
pub struct ExtKey {
    key: String,
}

impl ExtKey {
    pub closed spec fn view(&self) -> Seq<char> {
        self.key@
    }

    pub fn as_str(&self) -> (r: &str)
        ensures
            r@ == self.view(),
    {
        self.key.as_str()
    }

    /// A copy of the key.
    pub fn duplicate(&self) -> (r: ExtKey)
        ensures
            r.view() == self.view(),
    {
        ExtKey { key: self.key.clone() }
    }
}

/// The index of the last `.` in `b[..n]`.
pub open spec fn last_dot(b: Seq<u8>, n: int) -> Option<int>
    decreases n,
{
    if n <= 0 {
        None
    } else if b[n - 1] == 0x2E {
        Some(n - 1)
    } else {
        last_dot(b, n - 1)
    }
}

/// ASCII letters lowered; everything else kept.
pub open spec fn ascii_lower(c: char) -> char {
    if 'A' <= c <= 'Z' {
        ((c as u32) + 32) as char
    } else {
        c
    }
}

pub open spec fn lower_all(s: Seq<char>) -> Seq<char> {
    s.map_values(|c: char| ascii_lower(c))
}

/// The extension key of a name: the text after its last dot, ASCII
/// lowercased, when that is 1 to 8 bytes long.
pub open spec fn key_of(name: Seq<u8>) -> Option<Seq<char>> {
    match last_dot(name, name.len() as int) {
        None => None,
        Some(d) => {
            let ext = name.subrange(d + 1, name.len() as int);
            if ext.len() == 0 || ext.len() > 8 {
                None
            } else {
                Some(lower_all(decode_utf8(ext)))
            }
        },
    }
}

/// The little-endian packing of a key's characters.
pub open spec fn char_code(s: Seq<char>) -> nat
    decreases s.len(),
{
    if s.len() == 0 {
        0
    } else {
        (s[0] as u32) as nat + 256 * char_code(s.drop_first())
    }
}

/// The category of an extension key; keys with non-ASCII or NUL characters
/// or longer than 8 are `Other`.
pub open spec fn ext_category(k: Seq<char>) -> Category {
    if k.len() <= 8 && forall|i: int| 0 <= i < k.len() ==> 0 < (#[trigger] k[i] as u32) < 128 {
        category_of_code(char_code(k) as u64)
    } else {
        Category::Other
    }
}

/// Categorize by file extension (case-insensitive). Extensions cover the
/// bulk of bytes on real disks; everything unrecognized is `Other`.
pub open spec fn spec_categorize(name: Seq<u8>, is_dir: bool) -> Category {
    if is_dir {
        Category::Directory
    } else {
        match key_of(name) {
            None => Category::Other,
            Some(k) => ext_category(k),
        }
    }
}

/// The category of the extension whose lowercase bytes, packed little-endian, are `c`.
pub open spec fn category_of_code(c: u64) -> Category {
    // mp4 mkv avi mov wmv flv webm m4v mpg mpeg ts m2ts vob
    if c == 0x34706d || c == 0x766b6d || c == 0x697661 || c == 0x766f6d || c == 0x766d77 || c == 0x766c66 || c == 0x6d626577 || c == 0x76346d || c == 0x67706d || c == 0x6765706d || c == 0x7374 || c == 0x7374326d || c == 0x626f76 {
        Category::Video
    // mp3 flac wav aac ogg opus m4a wma mid aiff
    } else if c == 0x33706d || c == 0x63616c66 || c == 0x766177 || c == 0x636161 || c == 0x67676f || c == 0x7375706f || c == 0x61346d || c == 0x616d77 || c == 0x64696d || c == 0x66666961 {
        Category::Audio
    // jpg jpeg png gif bmp webp tiff tif svg ico heic raw cr2 nef dng psd
    } else if c == 0x67706a || c == 0x6765706a || c == 0x676e70 || c == 0x666967 || c == 0x706d62 || c == 0x70626577 || c == 0x66666974 || c == 0x666974 || c == 0x677673 || c == 0x6f6369 || c == 0x63696568 || c == 0x776172 || c == 0x327263 || c == 0x66656e || c == 0x676e64 || c == 0x647370 {
        Category::Image
    // zip rar 7z tar gz bz2 xz zst iso cab wim
    } else if c == 0x70697a || c == 0x726172 || c == 0x7a37 || c == 0x726174 || c == 0x7a67 || c == 0x327a62 || c == 0x7a78 || c == 0x74737a || c == 0x6f7369 || c == 0x626163 || c == 0x6d6977 {
        Category::Archive
    // pdf doc docx xls xlsx ppt pptx txt md rtf odt ods epub mobi csv
    } else if c == 0x666470 || c == 0x636f64 || c == 0x78636f64 || c == 0x736c78 || c == 0x78736c78 || c == 0x747070 || c == 0x78747070 || c == 0x747874 || c == 0x646d || c == 0x667472 || c == 0x74646f || c == 0x73646f || c == 0x62757065 || c == 0x69626f6d || c == 0x767363 {
        Category::Document
    // rs c cpp h hpp cs java py js tsx jsx go rb php html css scss json xml yaml yml toml sql sh ps1 bat lock
    } else if c == 0x7372 || c == 0x63 || c == 0x707063 || c == 0x68 || c == 0x707068 || c == 0x7363 || c == 0x6176616a || c == 0x7970 || c == 0x736a || c == 0x787374 || c == 0x78736a || c == 0x6f67 || c == 0x6272 || c == 0x706870 || c == 0x6c6d7468 || c == 0x737363 || c == 0x73736373 || c == 0x6e6f736a || c == 0x6c6d78 || c == 0x6c6d6179 || c == 0x6c6d79 || c == 0x6c6d6f74 || c == 0x6c7173 || c == 0x6873 || c == 0x317370 || c == 0x746162 || c == 0x6b636f6c {
        Category::Code
    // exe msi com scr appx msix jar
    } else if c == 0x657865 || c == 0x69736d || c == 0x6d6f63 || c == 0x726373 || c == 0x78707061 || c == 0x7869736d || c == 0x72616a {
        Category::Executable
    // dll sys drv ocx cpl efi mui etl dmp pdb winmd
    } else if c == 0x6c6c64 || c == 0x737973 || c == 0x767264 || c == 0x78636f || c == 0x6c7063 || c == 0x696665 || c == 0x69756d || c == 0x6c7465 || c == 0x706d64 || c == 0x626470 || c == 0x646d6e6977 {
        Category::System
    // db sqlite sqlite3 mdb log dat bin idx bak pak vhd vhdx vmdk qcow2
    } else if c == 0x6264 || c == 0x6574696c7173 || c == 0x336574696c7173 || c == 0x62646d || c == 0x676f6c || c == 0x746164 || c == 0x6e6962 || c == 0x786469 || c == 0x6b6162 || c == 0x6b6170 || c == 0x646876 || c == 0x78646876 || c == 0x6b646d76 || c == 0x32776f6371 {
        Category::Data
    } else {
        Category::Other
    }
}

/// Looks up the category of a packed extension code.
fn category_for_code(c: u64) -> (r: Category)
    ensures
        r == category_of_code(c),
{
    if c == 0x34706d || c == 0x766b6d || c == 0x697661 || c == 0x766f6d || c == 0x766d77 || c == 0x766c66 || c == 0x6d626577 || c == 0x76346d || c == 0x67706d || c == 0x6765706d || c == 0x7374 || c == 0x7374326d || c == 0x626f76 {
        Category::Video
    } else if c == 0x33706d || c == 0x63616c66 || c == 0x766177 || c == 0x636161 || c == 0x67676f || c == 0x7375706f || c == 0x61346d || c == 0x616d77 || c == 0x64696d || c == 0x66666961 {
        Category::Audio
    } else if c == 0x67706a || c == 0x6765706a || c == 0x676e70 || c == 0x666967 || c == 0x706d62 || c == 0x70626577 || c == 0x66666974 || c == 0x666974 || c == 0x677673 || c == 0x6f6369 || c == 0x63696568 || c == 0x776172 || c == 0x327263 || c == 0x66656e || c == 0x676e64 || c == 0x647370 {
        Category::Image
    } else if c == 0x70697a || c == 0x726172 || c == 0x7a37 || c == 0x726174 || c == 0x7a67 || c == 0x327a62 || c == 0x7a78 || c == 0x74737a || c == 0x6f7369 || c == 0x626163 || c == 0x6d6977 {
        Category::Archive
    } else if c == 0x666470 || c == 0x636f64 || c == 0x78636f64 || c == 0x736c78 || c == 0x78736c78 || c == 0x747070 || c == 0x78747070 || c == 0x747874 || c == 0x646d || c == 0x667472 || c == 0x74646f || c == 0x73646f || c == 0x62757065 || c == 0x69626f6d || c == 0x767363 {
        Category::Document
    } else if c == 0x7372 || c == 0x63 || c == 0x707063 || c == 0x68 || c == 0x707068 || c == 0x7363 || c == 0x6176616a || c == 0x7970 || c == 0x736a || c == 0x787374 || c == 0x78736a || c == 0x6f67 || c == 0x6272 || c == 0x706870 || c == 0x6c6d7468 || c == 0x737363 || c == 0x73736373 || c == 0x6e6f736a || c == 0x6c6d78 || c == 0x6c6d6179 || c == 0x6c6d79 || c == 0x6c6d6f74 || c == 0x6c7173 || c == 0x6873 || c == 0x317370 || c == 0x746162 || c == 0x6b636f6c {
        Category::Code
    } else if c == 0x657865 || c == 0x69736d || c == 0x6d6f63 || c == 0x726373 || c == 0x78707061 || c == 0x7869736d || c == 0x72616a {
        Category::Executable
    } else if c == 0x6c6c64 || c == 0x737973 || c == 0x767264 || c == 0x78636f || c == 0x6c7063 || c == 0x696665 || c == 0x69756d || c == 0x6c7465 || c == 0x706d64 || c == 0x626470 || c == 0x646d6e6977 {
        Category::System
    } else if c == 0x6264 || c == 0x6574696c7173 || c == 0x336574696c7173 || c == 0x62646d || c == 0x676f6c || c == 0x746164 || c == 0x6e6962 || c == 0x786469 || c == 0x6b6162 || c == 0x6b6170 || c == 0x646876 || c == 0x78646876 || c == 0x6b646d76 || c == 0x32776f6371 {
        Category::Data
    } else {
        Category::Other
    }
}

/// The index of the last `.` in `b`.
fn find_last_dot(b: &[u8]) -> (r: Option<usize>)
    ensures
        r matches Some(d) ==> last_dot(b@, b@.len() as int) == Some(d as int) && d < b@.len() && b@[d as int] == 0x2E,
        r is None ==> last_dot(b@, b@.len() as int) is None,
{
    let mut n = b.len();
    while n > 0
        invariant
            n <= b@.len(),
            last_dot(b@, b@.len() as int) == last_dot(b@, n as int),
        decreases n,
    {
        if b[n - 1] == 0x2E {
            return Some(n - 1);
        }
        n = n - 1;
    }
    None
}

proof fn lemma_after_ascii_boundary(b: Seq<u8>, d: int)
    requires
        valid_utf8(b),
        0 <= d < b.len(),
        b[d] < 0x80,
    ensures
        boundary(b, d + 1),
        valid_utf8(b.subrange(d + 1, b.len() as int)),
{
    is_char_boundary_iff_not_is_continuation_byte(b, d);
    valid_utf8_split(b, d);
    let rest = b.subrange(d, b.len() as int);
    assert(rest[0] == b[d]);
    assert(valid_utf8(rest.subrange(1, rest.len() as int))) by {
        reveal_with_fuel(valid_utf8, 2);
        assert(pop_first_scalar(rest) =~= rest.subrange(1, rest.len() as int));
    }
    assert(rest.subrange(1, rest.len() as int) =~= b.subrange(d + 1, b.len() as int));
    let pre = b.subrange(0, d + 1);
    let post = b.subrange(d + 1, b.len() as int);
    assert(b =~= pre + post);
    lemma_boundary_shift(pre, post, 0);
}

/// The extension key of `name`, if it has one.
pub fn extension_key(name: &str) -> (r: Option<ExtKey>)
    ensures
        r matches Some(k) ==> key_of(name.spec_bytes()) == Some(k.view()) && k.view().len() > 0,
        r is None ==> key_of(name.spec_bytes()) is None,
{
    let b = name.as_bytes();
    let ghost nb = name.spec_bytes();
    let dot = match find_last_dot(b) {
        None => {
            return None;
        },
        Some(d) => d,
    };
    let n = b.len();
    let elen = n - dot - 1;
    if elen == 0 || elen > 8 {
        return None;
    }
    proof {
        encode_utf8_valid_utf8(name@);
        lemma_after_ascii_boundary(nb, dot as int);
    }
    let ext = substr(name, dot + 1, elen);
    let chars = chars_of(ext);
    let mut key = String::new();
    let mut i: usize = 0;
    proof {
        assert(ext.spec_bytes() == nb.subrange(dot + 1, nb.len() as int));
        decode_utf8_encode_utf8(ext.spec_bytes());
        encode_utf8_decode_utf8(ext@);
    }
    while i < chars.len()
        invariant
            i <= chars@.len(),
            key@ == lower_all(chars@.subrange(0, i as int)),
        decreases chars@.len() - i,
    {
        let c = chars[i];
        let l = if 'A' <= c && c <= 'Z' {
            char_from_u32(c as u32 + 32).unwrap()
        } else {
            c
        };
        push_char(&mut key, l);
        i = i + 1;
        proof {
            assert(lower_all(chars@.subrange(0, i as int)) =~= lower_all(chars@.subrange(0, i - 1)).push(ascii_lower(chars@[i - 1])));
        }
    }
    proof {
        assert(chars@.subrange(0, i as int) =~= chars@);
        assert(decode_utf8(ext.spec_bytes()) == ext@);
        if ext@.len() == 0 {
            assert(encode_utf8(ext@) =~= Seq::<u8>::empty());
        }
    }
    Some(ExtKey { key })
}

/// The category of an extension key.
pub fn categorize_ext(k: &ExtKey) -> (r: Category)
    ensures
        r == ext_category(k.view()),
{
    let chars = chars_of(k.as_str());
    if chars.len() > 8 {
        return Category::Other;
    }
    let mut code: u64 = 0;
    let mut i: usize = chars.len();
    proof {
        assert(chars@.subrange(i as int, i as int) =~= Seq::<char>::empty());
    }
    while i > 0
        invariant
            i <= chars@.len() <= 8,
            chars@ == k.view(),
            forall|j: int| i <= j < chars@.len() ==> 0 < (#[trigger] chars@[j] as u32) < 128,
            code == char_code(chars@.subrange(i as int, chars@.len() as int)),
            code < crate::ntfs::pow256((chars@.len() - i) as nat),
        decreases i,
    {
        let c = chars[i - 1] as u32;
        if c >= 128 || c == 0 {
            proof {
                assert(!(0 < (chars@[i - 1] as u32) < 128));
                assert(!(forall|j: int| 0 <= j < chars@.len() ==> 0 < (#[trigger] chars@[j] as u32) < 128));
            }
            return Category::Other;
        }
        let ghost rest = chars@.subrange(i as int, chars@.len() as int);
        proof {
            crate::ntfs::lemma_pow256_mono((chars@.len() - i) as nat, 7);
            crate::ntfs::lemma_pow256_values();
            assert(chars@.subrange(i - 1, chars@.len() as int).drop_first() =~= rest);
            assert(crate::ntfs::pow256((chars@.len() - i + 1) as nat) == 256 * crate::ntfs::pow256((chars@.len() - i) as nat));
        }
        code = code * 256 + c as u64;
        i = i - 1;
    }
    proof {
        assert(chars@.subrange(0, chars@.len() as int) =~= chars@);
    }
    category_for_code(code)
}

/// Categorize by file extension (case-insensitive).
pub fn categorize(name: &str, is_dir: bool) -> (r: Category)
    ensures
        r == spec_categorize(name.spec_bytes(), is_dir),
{
    if is_dir {
        return Category::Directory;
    }
    match extension_key(name) {
        None => Category::Other,
        Some(k) => categorize_ext(&k),
    }
}

/// A byte with ASCII lowercase letters made uppercase.
pub open spec fn upper_byte(x: u8) -> u8 {
    if 0x61 <= x <= 0x7A {
        (x - 32) as u8
    } else {
        x
    }
}

/// Name bytes with every ASCII letter made uppercase (what
/// `str::to_ascii_uppercase` does to a name's bytes).
pub open spec fn upper_bytes(b: Seq<u8>) -> Seq<u8> {
    b.map_values(|x: u8| upper_byte(x))
}

/// A character with ASCII lowercase letters made uppercase.
pub open spec fn upper_char(c: char) -> char {
    if 'a' <= c <= 'z' {
        ((c as u32) - 32) as char
    } else {
        c
    }
}

proof fn lemma_last_dot_upper(b: Seq<u8>, k: int)
    requires
        0 <= k <= b.len(),
    ensures
        last_dot(upper_bytes(b), k) == last_dot(b, k),
    decreases k,
{
    if k > 0 {
        lemma_last_dot_upper(b, k - 1);
    }
}

/// Uppercasing the ASCII letters of valid UTF-8 keeps it valid and
/// uppercases the ASCII letters of what it decodes to.
proof fn lemma_upper_decode(e: Seq<u8>)
    requires
        valid_utf8(e),
    ensures
        valid_utf8(upper_bytes(e)),
        decode_utf8(upper_bytes(e)) == decode_utf8(e).map_values(|c: char| upper_char(c)),
    decreases e.len(),
{
    let u = upper_bytes(e);
    if e.len() == 0 {
        assert(decode_utf8(e).map_values(|c: char| upper_char(c)) =~= Seq::<char>::empty());
    } else {
        let l = length_of_first_scalar(e);
        let rest = pop_first_scalar(e);
        assert(valid_first_scalar(e));
        if e[0] <= 0x7F {
            let x = e[0];
            assert(x & 0x7F == x) by (bit_vector)
                requires
                    x <= 0x7F,
            ;
            let y = upper_byte(x);
            assert(y <= 0x7F);
            assert(y & 0x7F == y) by (bit_vector)
                requires
                    y <= 0x7F,
            ;
            assert(u[0] == y);
            assert(decode_first_scalar(u) == y as u32);
            assert(decode_first_scalar(e) == x as u32);
            char_u32_cast(x as char, x as u32);
            assert((y as u32) as char == upper_char((x as u32) as char));
        } else {
            assert(l >= 2);
            assert forall|i: int| 0 <= i < l implies #[trigger] u[i] == e[i] by {
                assert(e[i] >= 0x80);
            }
            assert(decode_first_scalar(u) == decode_first_scalar(e));
            assert(length_of_first_scalar(u) == l);
            decode_utf8_first_scalar(e);
            assert(take_first_scalar(e).len() == l);
            let c0 = decode_first_scalar(e) as char;
            assert((c0 as u32) >= 0x80);
            assert(upper_char(c0) == c0);
        }
        assert(pop_first_scalar(u) =~= upper_bytes(rest));
        lemma_upper_decode(rest);
        let c = decode_first_scalar(e) as char;
        assert(decode_utf8(e) == seq![c] + decode_utf8(rest));
        assert(decode_utf8(u) == seq![decode_first_scalar(u) as char] + decode_utf8(upper_bytes(rest)));
        assert(decode_first_scalar(u) as char == upper_char(c));
        assert(decode_utf8(u) =~= decode_utf8(e).map_values(|c: char| upper_char(c)));
    }
}

/// Categories ignore ASCII case: a name whose ASCII letters are made
/// uppercase falls in the same category; a directory is always
/// `Directory`, and a file never is; a file without a dot, or whose text
/// after its last dot is empty or longer than 8 bytes, is `Other`.
pub proof fn lemma_categorize_ignores_case(b: Seq<u8>, is_dir: bool)
    requires
        valid_utf8(b),
    ensures
        spec_categorize(upper_bytes(b), is_dir) == spec_categorize(b, is_dir),
        is_dir ==> spec_categorize(b, is_dir) == Category::Directory,
        !is_dir ==> spec_categorize(b, is_dir) != Category::Directory,
        !is_dir && (match last_dot(b, b.len() as int) {
            None => true,
            Some(d) => b.len() - (d + 1) == 0 || b.len() - (d + 1) > 8,
        }) ==> spec_categorize(b, is_dir) == Category::Other,
{
    let n = b.len() as int;
    let u = upper_bytes(b);
    lemma_last_dot_upper(b, n);
    match last_dot(b, n) {
        None => {},
        Some(d) => {
            lemma_last_dot_at(b, n);
            let ext = b.subrange(d + 1, n);
            assert(u.subrange(d + 1, n) =~= upper_bytes(ext));
            if ext.len() > 0 && ext.len() <= 8 {
                lemma_after_ascii_boundary(b, d);
                lemma_upper_decode(ext);
                let k = decode_utf8(ext);
                assert(lower_all(k.map_values(|c: char| upper_char(c))) =~= lower_all(k)) by {
                    assert forall|i: int| 0 <= i < k.len() implies ascii_lower(upper_char(#[trigger] k[i])) == ascii_lower(k[i]) by {
                        let c = k[i];
                        char_u32_cast(c, c as u32);
                        if 'a' <= c <= 'z' {
                            char_u32_cast(((c as u32) - 32) as char, ((c as u32) - 32) as u32);
                        }
                    }
                }
            }
        },
    }
    if !is_dir {
        lemma_code_not_directory(b);
    }
}

/// The dot `last_dot` finds is a dot inside the range.
proof fn lemma_last_dot_at(b: Seq<u8>, n: int)
    requires
        0 <= n <= b.len(),
    ensures
        last_dot(b, n) matches Some(d) ==> 0 <= d < n && b[d] == 0x2E,
    decreases n,
{
    if n > 0 {
        lemma_last_dot_at(b, n - 1);
    }
}

proof fn lemma_code_not_directory(b: Seq<u8>)
    ensures
        spec_categorize(b, false) != Category::Directory,
{
}


/// The extensions documented as Video.
pub open spec fn documented_video(k: Seq<char>) -> bool {
    k == seq!['m', 'p', '4']
    || k == seq!['m', 'k', 'v']
    || k == seq!['a', 'v', 'i']
    || k == seq!['m', 'o', 'v']
    || k == seq!['w', 'm', 'v']
    || k == seq!['f', 'l', 'v']
    || k == seq!['w', 'e', 'b', 'm']
    || k == seq!['m', '4', 'v']
    || k == seq!['m', 'p', 'g']
    || k == seq!['m', 'p', 'e', 'g']
    || k == seq!['t', 's']
    || k == seq!['m', '2', 't', 's']
    || k == seq!['v', 'o', 'b']
}

proof fn lemma_video_codes()
    ensures
        ext_category(seq!['m', 'p', '4']) == Category::Video,
        ext_category(seq!['m', 'k', 'v']) == Category::Video,
        ext_category(seq!['a', 'v', 'i']) == Category::Video,
        ext_category(seq!['m', 'o', 'v']) == Category::Video,
        ext_category(seq!['w', 'm', 'v']) == Category::Video,
        ext_category(seq!['f', 'l', 'v']) == Category::Video,
        ext_category(seq!['w', 'e', 'b', 'm']) == Category::Video,
        ext_category(seq!['m', '4', 'v']) == Category::Video,
        ext_category(seq!['m', 'p', 'g']) == Category::Video,
        ext_category(seq!['m', 'p', 'e', 'g']) == Category::Video,
        ext_category(seq!['t', 's']) == Category::Video,
        ext_category(seq!['m', '2', 't', 's']) == Category::Video,
        ext_category(seq!['v', 'o', 'b']) == Category::Video,
{
    reveal_with_fuel(char_code, 8);
}

/// The extensions documented as Audio.
pub open spec fn documented_audio(k: Seq<char>) -> bool {
    k == seq!['m', 'p', '3']
    || k == seq!['f', 'l', 'a', 'c']
    || k == seq!['w', 'a', 'v']
    || k == seq!['a', 'a', 'c']
    || k == seq!['o', 'g', 'g']
    || k == seq!['o', 'p', 'u', 's']
    || k == seq!['m', '4', 'a']
    || k == seq!['w', 'm', 'a']
    || k == seq!['m', 'i', 'd']
    || k == seq!['a', 'i', 'f', 'f']
}

proof fn lemma_audio_codes()
    ensures
        ext_category(seq!['m', 'p', '3']) == Category::Audio,
        ext_category(seq!['f', 'l', 'a', 'c']) == Category::Audio,
        ext_category(seq!['w', 'a', 'v']) == Category::Audio,
        ext_category(seq!['a', 'a', 'c']) == Category::Audio,
        ext_category(seq!['o', 'g', 'g']) == Category::Audio,
        ext_category(seq!['o', 'p', 'u', 's']) == Category::Audio,
        ext_category(seq!['m', '4', 'a']) == Category::Audio,
        ext_category(seq!['w', 'm', 'a']) == Category::Audio,
        ext_category(seq!['m', 'i', 'd']) == Category::Audio,
        ext_category(seq!['a', 'i', 'f', 'f']) == Category::Audio,
{
    reveal_with_fuel(char_code, 8);
}

/// The extensions documented as Image.
pub open spec fn documented_image(k: Seq<char>) -> bool {
    k == seq!['j', 'p', 'g']
    || k == seq!['j', 'p', 'e', 'g']
    || k == seq!['p', 'n', 'g']
    || k == seq!['g', 'i', 'f']
    || k == seq!['b', 'm', 'p']
    || k == seq!['w', 'e', 'b', 'p']
    || k == seq!['t', 'i', 'f', 'f']
    || k == seq!['t', 'i', 'f']
    || k == seq!['s', 'v', 'g']
    || k == seq!['i', 'c', 'o']
    || k == seq!['h', 'e', 'i', 'c']
    || k == seq!['r', 'a', 'w']
    || k == seq!['c', 'r', '2']
    || k == seq!['n', 'e', 'f']
    || k == seq!['d', 'n', 'g']
    || k == seq!['p', 's', 'd']
}

proof fn lemma_image_codes()
    ensures
        ext_category(seq!['j', 'p', 'g']) == Category::Image,
        ext_category(seq!['j', 'p', 'e', 'g']) == Category::Image,
        ext_category(seq!['p', 'n', 'g']) == Category::Image,
        ext_category(seq!['g', 'i', 'f']) == Category::Image,
        ext_category(seq!['b', 'm', 'p']) == Category::Image,
        ext_category(seq!['w', 'e', 'b', 'p']) == Category::Image,
        ext_category(seq!['t', 'i', 'f', 'f']) == Category::Image,
        ext_category(seq!['t', 'i', 'f']) == Category::Image,
        ext_category(seq!['s', 'v', 'g']) == Category::Image,
        ext_category(seq!['i', 'c', 'o']) == Category::Image,
        ext_category(seq!['h', 'e', 'i', 'c']) == Category::Image,
        ext_category(seq!['r', 'a', 'w']) == Category::Image,
        ext_category(seq!['c', 'r', '2']) == Category::Image,
        ext_category(seq!['n', 'e', 'f']) == Category::Image,
        ext_category(seq!['d', 'n', 'g']) == Category::Image,
        ext_category(seq!['p', 's', 'd']) == Category::Image,
{
    reveal_with_fuel(char_code, 8);
}

/// The extensions documented as Archive.
pub open spec fn documented_archive(k: Seq<char>) -> bool {
    k == seq!['z', 'i', 'p']
    || k == seq!['r', 'a', 'r']
    || k == seq!['7', 'z']
    || k == seq!['t', 'a', 'r']
    || k == seq!['g', 'z']
    || k == seq!['b', 'z', '2']
    || k == seq!['x', 'z']
    || k == seq!['z', 's', 't']
    || k == seq!['i', 's', 'o']
    || k == seq!['c', 'a', 'b']
    || k == seq!['w', 'i', 'm']
}

proof fn lemma_archive_codes()
    ensures
        ext_category(seq!['z', 'i', 'p']) == Category::Archive,
        ext_category(seq!['r', 'a', 'r']) == Category::Archive,
        ext_category(seq!['7', 'z']) == Category::Archive,
        ext_category(seq!['t', 'a', 'r']) == Category::Archive,
        ext_category(seq!['g', 'z']) == Category::Archive,
        ext_category(seq!['b', 'z', '2']) == Category::Archive,
        ext_category(seq!['x', 'z']) == Category::Archive,
        ext_category(seq!['z', 's', 't']) == Category::Archive,
        ext_category(seq!['i', 's', 'o']) == Category::Archive,
        ext_category(seq!['c', 'a', 'b']) == Category::Archive,
        ext_category(seq!['w', 'i', 'm']) == Category::Archive,
{
    reveal_with_fuel(char_code, 8);
}

/// The extensions documented as Document.
pub open spec fn documented_document(k: Seq<char>) -> bool {
    k == seq!['p', 'd', 'f']
    || k == seq!['d', 'o', 'c']
    || k == seq!['d', 'o', 'c', 'x']
    || k == seq!['x', 'l', 's']
    || k == seq!['x', 'l', 's', 'x']
    || k == seq!['p', 'p', 't']
    || k == seq!['p', 'p', 't', 'x']
    || k == seq!['t', 'x', 't']
    || k == seq!['m', 'd']
    || k == seq!['r', 't', 'f']
    || k == seq!['o', 'd', 't']
    || k == seq!['o', 'd', 's']
    || k == seq!['e', 'p', 'u', 'b']
    || k == seq!['m', 'o', 'b', 'i']
    || k == seq!['c', 's', 'v']
}

proof fn lemma_document_codes()
    ensures
        ext_category(seq!['p', 'd', 'f']) == Category::Document,
        ext_category(seq!['d', 'o', 'c']) == Category::Document,
        ext_category(seq!['d', 'o', 'c', 'x']) == Category::Document,
        ext_category(seq!['x', 'l', 's']) == Category::Document,
        ext_category(seq!['x', 'l', 's', 'x']) == Category::Document,
        ext_category(seq!['p', 'p', 't']) == Category::Document,
        ext_category(seq!['p', 'p', 't', 'x']) == Category::Document,
        ext_category(seq!['t', 'x', 't']) == Category::Document,
        ext_category(seq!['m', 'd']) == Category::Document,
        ext_category(seq!['r', 't', 'f']) == Category::Document,
        ext_category(seq!['o', 'd', 't']) == Category::Document,
        ext_category(seq!['o', 'd', 's']) == Category::Document,
        ext_category(seq!['e', 'p', 'u', 'b']) == Category::Document,
        ext_category(seq!['m', 'o', 'b', 'i']) == Category::Document,
        ext_category(seq!['c', 's', 'v']) == Category::Document,
{
    reveal_with_fuel(char_code, 8);
}

/// The extensions documented as Code.
pub open spec fn documented_code(k: Seq<char>) -> bool {
    k == seq!['r', 's']
    || k == seq!['c']
    || k == seq!['c', 'p', 'p']
    || k == seq!['h']
    || k == seq!['h', 'p', 'p']
    || k == seq!['c', 's']
    || k == seq!['j', 'a', 'v', 'a']
    || k == seq!['p', 'y']
    || k == seq!['j', 's']
    || k == seq!['t', 's', 'x']
    || k == seq!['j', 's', 'x']
    || k == seq!['g', 'o']
    || k == seq!['r', 'b']
    || k == seq!['p', 'h', 'p']
    || k == seq!['h', 't', 'm', 'l']
    || k == seq!['c', 's', 's']
    || k == seq!['s', 'c', 's', 's']
    || k == seq!['j', 's', 'o', 'n']
    || k == seq!['x', 'm', 'l']
    || k == seq!['y', 'a', 'm', 'l']
    || k == seq!['y', 'm', 'l']
    || k == seq!['t', 'o', 'm', 'l']
    || k == seq!['s', 'q', 'l']
    || k == seq!['s', 'h']
    || k == seq!['p', 's', '1']
    || k == seq!['b', 'a', 't']
    || k == seq!['l', 'o', 'c', 'k']
}

proof fn lemma_code_codes()
    ensures
        ext_category(seq!['r', 's']) == Category::Code,
        ext_category(seq!['c']) == Category::Code,
        ext_category(seq!['c', 'p', 'p']) == Category::Code,
        ext_category(seq!['h']) == Category::Code,
        ext_category(seq!['h', 'p', 'p']) == Category::Code,
        ext_category(seq!['c', 's']) == Category::Code,
        ext_category(seq!['j', 'a', 'v', 'a']) == Category::Code,
        ext_category(seq!['p', 'y']) == Category::Code,
        ext_category(seq!['j', 's']) == Category::Code,
        ext_category(seq!['t', 's', 'x']) == Category::Code,
        ext_category(seq!['j', 's', 'x']) == Category::Code,
        ext_category(seq!['g', 'o']) == Category::Code,
        ext_category(seq!['r', 'b']) == Category::Code,
        ext_category(seq!['p', 'h', 'p']) == Category::Code,
        ext_category(seq!['h', 't', 'm', 'l']) == Category::Code,
        ext_category(seq!['c', 's', 's']) == Category::Code,
        ext_category(seq!['s', 'c', 's', 's']) == Category::Code,
        ext_category(seq!['j', 's', 'o', 'n']) == Category::Code,
        ext_category(seq!['x', 'm', 'l']) == Category::Code,
        ext_category(seq!['y', 'a', 'm', 'l']) == Category::Code,
        ext_category(seq!['y', 'm', 'l']) == Category::Code,
        ext_category(seq!['t', 'o', 'm', 'l']) == Category::Code,
        ext_category(seq!['s', 'q', 'l']) == Category::Code,
        ext_category(seq!['s', 'h']) == Category::Code,
        ext_category(seq!['p', 's', '1']) == Category::Code,
        ext_category(seq!['b', 'a', 't']) == Category::Code,
        ext_category(seq!['l', 'o', 'c', 'k']) == Category::Code,
{
    reveal_with_fuel(char_code, 8);
}

/// The extensions documented as Executable.
pub open spec fn documented_executable(k: Seq<char>) -> bool {
    k == seq!['e', 'x', 'e']
    || k == seq!['m', 's', 'i']
    || k == seq!['c', 'o', 'm']
    || k == seq!['s', 'c', 'r']
    || k == seq!['a', 'p', 'p', 'x']
    || k == seq!['m', 's', 'i', 'x']
    || k == seq!['j', 'a', 'r']
}

proof fn lemma_executable_codes()
    ensures
        ext_category(seq!['e', 'x', 'e']) == Category::Executable,
        ext_category(seq!['m', 's', 'i']) == Category::Executable,
        ext_category(seq!['c', 'o', 'm']) == Category::Executable,
        ext_category(seq!['s', 'c', 'r']) == Category::Executable,
        ext_category(seq!['a', 'p', 'p', 'x']) == Category::Executable,
        ext_category(seq!['m', 's', 'i', 'x']) == Category::Executable,
        ext_category(seq!['j', 'a', 'r']) == Category::Executable,
{
    reveal_with_fuel(char_code, 8);
}

/// The extensions documented as System.
pub open spec fn documented_system(k: Seq<char>) -> bool {
    k == seq!['d', 'l', 'l']
    || k == seq!['s', 'y', 's']
    || k == seq!['d', 'r', 'v']
    || k == seq!['o', 'c', 'x']
    || k == seq!['c', 'p', 'l']
    || k == seq!['e', 'f', 'i']
    || k == seq!['m', 'u', 'i']
    || k == seq!['e', 't', 'l']
    || k == seq!['d', 'm', 'p']
    || k == seq!['p', 'd', 'b']
    || k == seq!['w', 'i', 'n', 'm', 'd']
}

proof fn lemma_system_codes()
    ensures
        ext_category(seq!['d', 'l', 'l']) == Category::System,
        ext_category(seq!['s', 'y', 's']) == Category::System,
        ext_category(seq!['d', 'r', 'v']) == Category::System,
        ext_category(seq!['o', 'c', 'x']) == Category::System,
        ext_category(seq!['c', 'p', 'l']) == Category::System,
        ext_category(seq!['e', 'f', 'i']) == Category::System,
        ext_category(seq!['m', 'u', 'i']) == Category::System,
        ext_category(seq!['e', 't', 'l']) == Category::System,
        ext_category(seq!['d', 'm', 'p']) == Category::System,
        ext_category(seq!['p', 'd', 'b']) == Category::System,
        ext_category(seq!['w', 'i', 'n', 'm', 'd']) == Category::System,
{
    reveal_with_fuel(char_code, 8);
}

/// The extensions documented as Data.
pub open spec fn documented_data(k: Seq<char>) -> bool {
    k == seq!['d', 'b']
    || k == seq!['s', 'q', 'l', 'i', 't', 'e']
    || k == seq!['s', 'q', 'l', 'i', 't', 'e', '3']
    || k == seq!['m', 'd', 'b']
    || k == seq!['l', 'o', 'g']
    || k == seq!['d', 'a', 't']
    || k == seq!['b', 'i', 'n']
    || k == seq!['i', 'd', 'x']
    || k == seq!['b', 'a', 'k']
    || k == seq!['p', 'a', 'k']
    || k == seq!['v', 'h', 'd']
    || k == seq!['v', 'h', 'd', 'x']
    || k == seq!['v', 'm', 'd', 'k']
    || k == seq!['q', 'c', 'o', 'w', '2']
}

proof fn lemma_data_codes()
    ensures
        ext_category(seq!['d', 'b']) == Category::Data,
        ext_category(seq!['s', 'q', 'l', 'i', 't', 'e']) == Category::Data,
        ext_category(seq!['s', 'q', 'l', 'i', 't', 'e', '3']) == Category::Data,
        ext_category(seq!['m', 'd', 'b']) == Category::Data,
        ext_category(seq!['l', 'o', 'g']) == Category::Data,
        ext_category(seq!['d', 'a', 't']) == Category::Data,
        ext_category(seq!['b', 'i', 'n']) == Category::Data,
        ext_category(seq!['i', 'd', 'x']) == Category::Data,
        ext_category(seq!['b', 'a', 'k']) == Category::Data,
        ext_category(seq!['p', 'a', 'k']) == Category::Data,
        ext_category(seq!['v', 'h', 'd']) == Category::Data,
        ext_category(seq!['v', 'h', 'd', 'x']) == Category::Data,
        ext_category(seq!['v', 'm', 'd', 'k']) == Category::Data,
        ext_category(seq!['q', 'c', 'o', 'w', '2']) == Category::Data,
{
    reveal_with_fuel(char_code, 8);
}

/// Every extension the categorizer documents lands in its documented
/// category, whatever the ASCII case it is written in (the key is the
/// lowercased text after the last dot): `png` and `PNG` are images, `ts` is
/// video, `dll` is system, and so on for each listed extension.
pub proof fn lemma_documented_categories(name: Seq<u8>)
    ensures
        key_of(name) matches Some(k) && documented_video(k) ==> spec_categorize(name, false) == Category::Video,
        key_of(name) matches Some(k) && documented_audio(k) ==> spec_categorize(name, false) == Category::Audio,
        key_of(name) matches Some(k) && documented_image(k) ==> spec_categorize(name, false) == Category::Image,
        key_of(name) matches Some(k) && documented_archive(k) ==> spec_categorize(name, false) == Category::Archive,
        key_of(name) matches Some(k) && documented_document(k) ==> spec_categorize(name, false) == Category::Document,
        key_of(name) matches Some(k) && documented_code(k) ==> spec_categorize(name, false) == Category::Code,
        key_of(name) matches Some(k) && documented_executable(k) ==> spec_categorize(name, false) == Category::Executable,
        key_of(name) matches Some(k) && documented_system(k) ==> spec_categorize(name, false) == Category::System,
        key_of(name) matches Some(k) && documented_data(k) ==> spec_categorize(name, false) == Category::Data,
{
    lemma_video_codes();
    lemma_audio_codes();
    lemma_image_codes();
    lemma_archive_codes();
    lemma_document_codes();
    lemma_code_codes();
    lemma_executable_codes();
    lemma_system_codes();
    lemma_data_codes();
}

/// The characters a packed extension code stands for, lowest byte first.
pub open spec fn code_chars(c: nat) -> Seq<char>
    decreases c,
{
    if c == 0 {
        Seq::empty()
    } else {
        seq![((c % 256) as u32) as char] + code_chars(c / 256)
    }
}

/// A key of non-NUL ASCII characters is read back from its code.
proof fn lemma_code_chars(k: Seq<char>)
    requires
        forall|i: int| 0 <= i < k.len() ==> 0 < (#[trigger] k[i] as u32) < 128,
    ensures
        code_chars(char_code(k)) == k,
    decreases k.len(),
{
    if k.len() > 0 {
        let rest = k.drop_first();
        assert forall|i: int| 0 <= i < rest.len() implies 0 < (#[trigger] rest[i] as u32) < 128 by {
            assert(rest[i] == k[i + 1]);
        }
        lemma_code_chars(rest);
        assert(0 < (k[0] as u32) < 128);
        let c = char_code(k);
        assert(c % 256 == k[0] as u32);
        assert(c / 256 == char_code(rest));
        vstd::utf8::char_u32_cast(k[0], k[0] as u32);
        assert(code_chars(c) =~= k);
    }
}

proof fn lemma_video_decodes()
    ensures
        code_chars(0x34706d) == seq!['m', 'p', '4'],
        code_chars(0x766b6d) == seq!['m', 'k', 'v'],
        code_chars(0x697661) == seq!['a', 'v', 'i'],
        code_chars(0x766f6d) == seq!['m', 'o', 'v'],
        code_chars(0x766d77) == seq!['w', 'm', 'v'],
        code_chars(0x766c66) == seq!['f', 'l', 'v'],
        code_chars(0x6d626577) == seq!['w', 'e', 'b', 'm'],
        code_chars(0x76346d) == seq!['m', '4', 'v'],
        code_chars(0x67706d) == seq!['m', 'p', 'g'],
        code_chars(0x6765706d) == seq!['m', 'p', 'e', 'g'],
        code_chars(0x7374) == seq!['t', 's'],
        code_chars(0x7374326d) == seq!['m', '2', 't', 's'],
        code_chars(0x626f76) == seq!['v', 'o', 'b'],
{
    reveal_with_fuel(code_chars, 9);
}

proof fn lemma_audio_decodes()
    ensures
        code_chars(0x33706d) == seq!['m', 'p', '3'],
        code_chars(0x63616c66) == seq!['f', 'l', 'a', 'c'],
        code_chars(0x766177) == seq!['w', 'a', 'v'],
        code_chars(0x636161) == seq!['a', 'a', 'c'],
        code_chars(0x67676f) == seq!['o', 'g', 'g'],
        code_chars(0x7375706f) == seq!['o', 'p', 'u', 's'],
        code_chars(0x61346d) == seq!['m', '4', 'a'],
        code_chars(0x616d77) == seq!['w', 'm', 'a'],
        code_chars(0x64696d) == seq!['m', 'i', 'd'],
        code_chars(0x66666961) == seq!['a', 'i', 'f', 'f'],
{
    reveal_with_fuel(code_chars, 9);
}

proof fn lemma_image_decodes()
    ensures
        code_chars(0x67706a) == seq!['j', 'p', 'g'],
        code_chars(0x6765706a) == seq!['j', 'p', 'e', 'g'],
        code_chars(0x676e70) == seq!['p', 'n', 'g'],
        code_chars(0x666967) == seq!['g', 'i', 'f'],
        code_chars(0x706d62) == seq!['b', 'm', 'p'],
        code_chars(0x70626577) == seq!['w', 'e', 'b', 'p'],
        code_chars(0x66666974) == seq!['t', 'i', 'f', 'f'],
        code_chars(0x666974) == seq!['t', 'i', 'f'],
        code_chars(0x677673) == seq!['s', 'v', 'g'],
        code_chars(0x6f6369) == seq!['i', 'c', 'o'],
        code_chars(0x63696568) == seq!['h', 'e', 'i', 'c'],
        code_chars(0x776172) == seq!['r', 'a', 'w'],
        code_chars(0x327263) == seq!['c', 'r', '2'],
        code_chars(0x66656e) == seq!['n', 'e', 'f'],
        code_chars(0x676e64) == seq!['d', 'n', 'g'],
        code_chars(0x647370) == seq!['p', 's', 'd'],
{
    reveal_with_fuel(code_chars, 9);
}

proof fn lemma_archive_decodes()
    ensures
        code_chars(0x70697a) == seq!['z', 'i', 'p'],
        code_chars(0x726172) == seq!['r', 'a', 'r'],
        code_chars(0x7a37) == seq!['7', 'z'],
        code_chars(0x726174) == seq!['t', 'a', 'r'],
        code_chars(0x7a67) == seq!['g', 'z'],
        code_chars(0x327a62) == seq!['b', 'z', '2'],
        code_chars(0x7a78) == seq!['x', 'z'],
        code_chars(0x74737a) == seq!['z', 's', 't'],
        code_chars(0x6f7369) == seq!['i', 's', 'o'],
        code_chars(0x626163) == seq!['c', 'a', 'b'],
        code_chars(0x6d6977) == seq!['w', 'i', 'm'],
{
    reveal_with_fuel(code_chars, 9);
}

proof fn lemma_document_decodes()
    ensures
        code_chars(0x666470) == seq!['p', 'd', 'f'],
        code_chars(0x636f64) == seq!['d', 'o', 'c'],
        code_chars(0x78636f64) == seq!['d', 'o', 'c', 'x'],
        code_chars(0x736c78) == seq!['x', 'l', 's'],
        code_chars(0x78736c78) == seq!['x', 'l', 's', 'x'],
        code_chars(0x747070) == seq!['p', 'p', 't'],
        code_chars(0x78747070) == seq!['p', 'p', 't', 'x'],
        code_chars(0x747874) == seq!['t', 'x', 't'],
        code_chars(0x646d) == seq!['m', 'd'],
        code_chars(0x667472) == seq!['r', 't', 'f'],
        code_chars(0x74646f) == seq!['o', 'd', 't'],
        code_chars(0x73646f) == seq!['o', 'd', 's'],
        code_chars(0x62757065) == seq!['e', 'p', 'u', 'b'],
        code_chars(0x69626f6d) == seq!['m', 'o', 'b', 'i'],
        code_chars(0x767363) == seq!['c', 's', 'v'],
{
    reveal_with_fuel(code_chars, 9);
}

proof fn lemma_code_decodes()
    ensures
        code_chars(0x7372) == seq!['r', 's'],
        code_chars(0x63) == seq!['c'],
        code_chars(0x707063) == seq!['c', 'p', 'p'],
        code_chars(0x68) == seq!['h'],
        code_chars(0x707068) == seq!['h', 'p', 'p'],
        code_chars(0x7363) == seq!['c', 's'],
        code_chars(0x6176616a) == seq!['j', 'a', 'v', 'a'],
        code_chars(0x7970) == seq!['p', 'y'],
        code_chars(0x736a) == seq!['j', 's'],
        code_chars(0x787374) == seq!['t', 's', 'x'],
        code_chars(0x78736a) == seq!['j', 's', 'x'],
        code_chars(0x6f67) == seq!['g', 'o'],
        code_chars(0x6272) == seq!['r', 'b'],
        code_chars(0x706870) == seq!['p', 'h', 'p'],
        code_chars(0x6c6d7468) == seq!['h', 't', 'm', 'l'],
        code_chars(0x737363) == seq!['c', 's', 's'],
        code_chars(0x73736373) == seq!['s', 'c', 's', 's'],
        code_chars(0x6e6f736a) == seq!['j', 's', 'o', 'n'],
        code_chars(0x6c6d78) == seq!['x', 'm', 'l'],
        code_chars(0x6c6d6179) == seq!['y', 'a', 'm', 'l'],
        code_chars(0x6c6d79) == seq!['y', 'm', 'l'],
        code_chars(0x6c6d6f74) == seq!['t', 'o', 'm', 'l'],
        code_chars(0x6c7173) == seq!['s', 'q', 'l'],
        code_chars(0x6873) == seq!['s', 'h'],
        code_chars(0x317370) == seq!['p', 's', '1'],
        code_chars(0x746162) == seq!['b', 'a', 't'],
        code_chars(0x6b636f6c) == seq!['l', 'o', 'c', 'k'],
{
    reveal_with_fuel(code_chars, 9);
}

proof fn lemma_executable_decodes()
    ensures
        code_chars(0x657865) == seq!['e', 'x', 'e'],
        code_chars(0x69736d) == seq!['m', 's', 'i'],
        code_chars(0x6d6f63) == seq!['c', 'o', 'm'],
        code_chars(0x726373) == seq!['s', 'c', 'r'],
        code_chars(0x78707061) == seq!['a', 'p', 'p', 'x'],
        code_chars(0x7869736d) == seq!['m', 's', 'i', 'x'],
        code_chars(0x72616a) == seq!['j', 'a', 'r'],
{
    reveal_with_fuel(code_chars, 9);
}

proof fn lemma_system_decodes()
    ensures
        code_chars(0x6c6c64) == seq!['d', 'l', 'l'],
        code_chars(0x737973) == seq!['s', 'y', 's'],
        code_chars(0x767264) == seq!['d', 'r', 'v'],
        code_chars(0x78636f) == seq!['o', 'c', 'x'],
        code_chars(0x6c7063) == seq!['c', 'p', 'l'],
        code_chars(0x696665) == seq!['e', 'f', 'i'],
        code_chars(0x69756d) == seq!['m', 'u', 'i'],
        code_chars(0x6c7465) == seq!['e', 't', 'l'],
        code_chars(0x706d64) == seq!['d', 'm', 'p'],
        code_chars(0x626470) == seq!['p', 'd', 'b'],
        code_chars(0x646d6e6977) == seq!['w', 'i', 'n', 'm', 'd'],
{
    reveal_with_fuel(code_chars, 9);
}

proof fn lemma_data_decodes()
    ensures
        code_chars(0x6264) == seq!['d', 'b'],
        code_chars(0x6574696c7173) == seq!['s', 'q', 'l', 'i', 't', 'e'],
        code_chars(0x336574696c7173) == seq!['s', 'q', 'l', 'i', 't', 'e', '3'],
        code_chars(0x62646d) == seq!['m', 'd', 'b'],
        code_chars(0x676f6c) == seq!['l', 'o', 'g'],
        code_chars(0x746164) == seq!['d', 'a', 't'],
        code_chars(0x6e6962) == seq!['b', 'i', 'n'],
        code_chars(0x786469) == seq!['i', 'd', 'x'],
        code_chars(0x6b6162) == seq!['b', 'a', 'k'],
        code_chars(0x6b6170) == seq!['p', 'a', 'k'],
        code_chars(0x646876) == seq!['v', 'h', 'd'],
        code_chars(0x78646876) == seq!['v', 'h', 'd', 'x'],
        code_chars(0x6b646d76) == seq!['v', 'm', 'd', 'k'],
        code_chars(0x32776f6371) == seq!['q', 'c', 'o', 'w', '2'],
{
    reveal_with_fuel(code_chars, 9);
}

/// The known codes are exactly the documented extensions: a code that
/// the lookup places in a category other than `Other` spells one of them.
proof fn lemma_known_codes(c: nat)
    requires
        c < 0x1_0000_0000_0000_0000,
        category_of_code(c as u64) != Category::Other,
    ensures
        ({
            let k = code_chars(c);
            documented_video(k) || documented_audio(k) || documented_image(k) || documented_archive(k) || documented_document(k) || documented_code(k) || documented_executable(k) || documented_system(k) || documented_data(k)
        }),
{
    lemma_video_decodes();
    lemma_audio_decodes();
    lemma_image_decodes();
    lemma_archive_decodes();
    lemma_document_decodes();
    lemma_code_decodes();
    lemma_executable_decodes();
    lemma_system_decodes();
    lemma_data_decodes();
}

/// Nothing but the documented extensions has a category: a file whose key
/// (its lowercased extension) is none of the listed ones is `Other`.
pub proof fn lemma_undocumented_is_other(name: Seq<u8>)
    ensures
        key_of(name) matches Some(k) && !(documented_video(k) || documented_audio(k) || documented_image(k) || documented_archive(k) || documented_document(k) || documented_code(k) || documented_executable(k) || documented_system(k) || documented_data(k)) ==> spec_categorize(name, false) == Category::Other,
{
    if let Some(k) = key_of(name) {
        if ext_category(k) != Category::Other {
            lemma_code_chars(k);
            crate::ntfs::lemma_pow256_values();
            lemma_char_code_bound(k);
            lemma_known_codes(char_code(k));
        }
    }
}

proof fn lemma_char_code_bound(k: Seq<char>)
    requires
        k.len() <= 8,
        forall|i: int| 0 <= i < k.len() ==> 0 < (#[trigger] k[i] as u32) < 128,
    ensures
        char_code(k) < crate::ntfs::pow256(k.len()),
        char_code(k) < 0x1_0000_0000_0000_0000,
    decreases k.len(),
{
    crate::ntfs::lemma_pow256_values();
    crate::ntfs::lemma_pow256_mono(k.len(), 8);
    if k.len() > 0 {
        let rest = k.drop_first();
        assert forall|i: int| 0 <= i < rest.len() implies 0 < (#[trigger] rest[i] as u32) < 128 by {
            assert(rest[i] == k[i + 1]);
        }
        lemma_char_code_bound(rest);
        assert(crate::ntfs::pow256(k.len()) == 256 * crate::ntfs::pow256(rest.len()));
    }
}

} // verus!
