//! Delete-boundary policy: paths Windows itself depends on.
//!
//! Blocks the OS structures living at a volume root ($Recycle.Bin, System
//! Volume Information, the paging files), the Windows directory itself, and
//! the well-known critical directories inside it (System32 etc.) including
//! their contents. Everything else under Windows (Temp, Logs, ...) and the
//! contents of the volume-root entries stay deletable.

use vstd::prelude::*;
use vstd::string::StringSliceAdditionalSpecFns;

use crate::category::{ascii_lower, lower_all};
use crate::text::{boundary, bytes_of, chars_of, push_char, push_str};

verus! {

pub open spec fn is_sep(c: char) -> bool {
    c == '\\' || c == '/'
}

/// `s` without its trailing separators.
pub open spec fn trim_seps(s: Seq<char>) -> Seq<char>
    decreases s.len(),
{
    if s.len() > 0 && is_sep(s.last()) {
        trim_seps(s.drop_last())
    } else {
        s
    }
}

pub open spec fn has_sep(s: Seq<char>) -> bool {
    exists|i: int| 0 <= i < s.len() && is_sep(#[trigger] s[i])
}

pub open spec fn is_ascii_alpha(c: char) -> bool {
    ('a' <= c <= 'z') || ('A' <= c <= 'Z')
}

/// `C:\$Recycle.Bin` -> `$Recycle.Bin`; deeper or relative paths -> none.
pub open spec fn volume_root_child(p: Seq<char>) -> Option<Seq<char>> {
    if p.len() > 3 && is_ascii_alpha(p[0]) && p[1] == ':' && is_sep(p[2]) && !has_sep(p.subrange(3, p.len() as int)) {
        Some(p.subrange(3, p.len() as int))
    } else {
        None
    }
}

/// ASCII-case-insensitive equality.
pub open spec fn eq_ci(a: Seq<char>, b: Seq<char>) -> bool {
    lower_all(a) == lower_all(b)
}

/// `C:\Windows\System32\x` with prefix `C:\Windows` -> `System32\x`; equal
/// or unrelated paths -> none.
pub open spec fn strip_dir_prefix(p: Seq<char>, prefix: Seq<char>) -> Option<Seq<char>> {
    let n = prefix.len() as int;
    if p.len() > n && eq_ci(p.subrange(0, n), prefix) && is_sep(p[n]) {
        Some(p.subrange(n + 1, p.len() as int))
    } else {
        None
    }
}

/// The text before the first separator.
pub open spec fn first_component(s: Seq<char>) -> Seq<char>
    decreases s.len(),
{
    if s.len() == 0 || is_sep(s[0]) {
        Seq::empty()
    } else {
        seq![s[0]] + first_component(s.drop_first())
    }
}

/// Direct children of the Windows directory that are blocked wholesale,
/// contents included.
pub open spec fn is_critical_dir(name: Seq<char>) -> bool {
    ||| eq_ci(name, "System32"@)
    ||| eq_ci(name, "SysWOW64"@)
    ||| eq_ci(name, "WinSxS"@)
    ||| eq_ci(name, "Boot"@)
    ||| eq_ci(name, "Fonts"@)
}

/// Why `path` must never be deleted, or none if it's fair game, given the
/// Windows directory `system_root` when known.
pub open spec fn spec_block_reason(path: Seq<char>, system_root: Option<Seq<char>>) -> Option<Seq<char>> {
    let t = trim_seps(path);
    let managed = match volume_root_child(t) {
        Some(name) => if eq_ci(name, "$recycle.bin"@) || eq_ci(name, "system volume information"@) {
            Some(name + " is managed by Windows and can't be deleted"@)
        } else if eq_ci(name, "pagefile.sys"@) || eq_ci(name, "hiberfil.sys"@) || eq_ci(name, "swapfile.sys"@) {
            Some(name + " is in use by Windows and can't be deleted"@)
        } else {
            None
        },
        None => None,
    };
    if managed is Some {
        managed
    } else {
        match system_root {
            None => None,
            Some(r) => {
                let root = trim_seps(r);
                if eq_ci(t, root) {
                    Some("the Windows directory can't be deleted"@)
                } else {
                    match strip_dir_prefix(t, root) {
                        None => None,
                        Some(rest) => {
                            let name = first_component(rest);
                            if !is_critical_dir(name) {
                                None
                            } else if name.len() == rest.len() {
                                Some(name + " is part of Windows and can't be deleted"@)
                            } else {
                                Some("items inside "@ + name + " are part of Windows and can't be deleted"@)
                            }
                        },
                    }
                }
            },
        }
    }
}

/// The system-root check splits the trimmed path's bytes where the trimmed
/// system root ends; that split must fall between characters.
pub open spec fn root_split_ok(path: Seq<char>, system_root: Option<Seq<char>>) -> bool {
    match system_root {
        None => true,
        Some(r) => {
            let t = bytes_of(trim_seps(path));
            let k = bytes_of(trim_seps(r)).len() as int;
            t.len() <= k || boundary(t, k)
        },
    }
}

fn trim_seps_exec(s: &Vec<char>) -> (r: Vec<char>)
    ensures
        r@ == trim_seps(s@),
{
    let mut n = s.len();
    proof {
        assert(s@.subrange(0, n as int) =~= s@);
    }
    while n > 0 && (s[n - 1] == '\\' || s[n - 1] == '/')
        invariant
            n <= s@.len(),
            trim_seps(s@) == trim_seps(s@.subrange(0, n as int)),
        decreases n,
    {
        proof {
            assert(s@.subrange(0, n as int).drop_last() =~= s@.subrange(0, n - 1));
        }
        n = n - 1;
    }
    let mut r: Vec<char> = Vec::new();
    let mut i: usize = 0;
    while i < n
        invariant
            n <= s@.len(),
            i <= n,
            r@ == s@.subrange(0, i as int),
        decreases n - i,
    {
        r.push(s[i]);
        i = i + 1;
        proof {
            assert(r@ =~= s@.subrange(0, i as int));
        }
    }
    proof {
        let t = s@.subrange(0, n as int);
        assert(r@ =~= t);
        if t.len() > 0 {
            assert(!is_sep(t.last()));
        }
    }
    r
}

fn lower_char(c: char) -> (r: char)
    ensures
        r == ascii_lower(c),
{
    if 'A' <= c && c <= 'Z' {
        crate::text::char_from_u32(c as u32 + 32).unwrap()
    } else {
        c
    }
}

/// ASCII-case-insensitive comparison of `a[from..from + b.len()]` with `b`.
fn eq_ci_at(a: &Vec<char>, from: usize, b: &Vec<char>) -> (r: bool)
    requires
        from + b@.len() <= a@.len(),
    ensures
        r == eq_ci(a@.subrange(from as int, from + b@.len()), b@),
{
    let ghost sa = a@.subrange(from as int, from + b@.len());
    let alen = a.len();
    let mut i: usize = 0;
    while i < b.len()
        invariant
            alen == a@.len(),
            from + b@.len() <= a@.len(),
            sa == a@.subrange(from as int, from + b@.len()),
            i <= b@.len(),
            forall|j: int| 0 <= j < i ==> ascii_lower(#[trigger] sa[j]) == ascii_lower(b@[j]),
        decreases b@.len() - i,
    {
        let at = from + i;
        if lower_char(a[at]) != lower_char(b[i]) {
            proof {
                assert(lower_all(sa)[i as int] != lower_all(b@)[i as int]);
            }
            return false;
        }
        i = i + 1;
    }
    proof {
        assert(lower_all(sa) =~= lower_all(b@));
    }
    true
}

fn has_sep_from(s: &Vec<char>, from: usize) -> (r: bool)
    requires
        from <= s@.len(),
    ensures
        r == has_sep(s@.subrange(from as int, s@.len() as int)),
{
    let ghost t = s@.subrange(from as int, s@.len() as int);
    let mut i = from;
    while i < s.len()
        invariant
            from <= i <= s@.len(),
            t == s@.subrange(from as int, s@.len() as int),
            forall|j: int| from <= j < i ==> !is_sep(#[trigger] s@[j]),
        decreases s@.len() - i,
    {
        if s[i] == '\\' || s[i] == '/' {
            proof {
                assert(is_sep(t[i - from]));
            }
            return true;
        }
        i = i + 1;
    }
    proof {
        assert forall|j: int| 0 <= j < t.len() implies !is_sep(#[trigger] t[j]) by {
            assert(t[j] == s@[j + from]);
        }
    }
    false
}

fn chars_from_literal(s: &str) -> (v: Vec<char>)
    ensures
        v@ == s@,
{
    chars_of(s)
}

/// Appends the characters `v[from..to]`.
fn push_chars(out: &mut String, v: &Vec<char>, from: usize, to: usize)
    requires
        from <= to <= v@.len(),
    ensures
        final(out)@ == old(out)@ + v@.subrange(from as int, to as int),
{
    let mut i = from;
    while i < to
        invariant
            from <= i <= to <= v@.len(),
            out@ == old(out)@ + v@.subrange(from as int, i as int),
        decreases to - i,
    {
        push_char(out, v[i]);
        i = i + 1;
        proof {
            assert(out@ =~= old(out)@ + v@.subrange(from as int, i as int));
        }
    }
}

/// Whether the byte-level split `block_reason` makes is defined.
pub fn root_split_is_ok(path: &str, system_root: Option<&str>) -> (r: bool)
    ensures
        r == root_split_ok(path@, match system_root {
            Some(s) => Some(s@),
            None => None,
        }),
{
    match system_root {
        None => true,
        Some(root) => {
            let p = trim_seps_exec(&chars_of(path));
            let rt = trim_seps_exec(&chars_of(root));
            let mut ps = String::new();
            push_chars(&mut ps, &p, 0, p.len());
            let mut rs = String::new();
            push_chars(&mut rs, &rt, 0, rt.len());
            let pstr = ps.as_str();
            let pn = crate::text::byte_len(pstr);
            let k = crate::text::byte_len(rs.as_str());
            proof {
                assert(ps@ =~= p@);
                assert(rs@ =~= rt@);
            }
            if pn <= k {
                true
            } else {
                proof {
                    vstd::utf8::encode_utf8_valid_utf8(ps@);
                    crate::text::lemma_boundary_is_char_boundary(pstr.spec_bytes(), k as int);
                }
                pstr.is_char_boundary(k)
            }
        },
    }
}

/// Why `path` must never be deleted, or `None` if it's fair game, given
/// the Windows directory `system_root` when it is known.
pub fn block_reason(path: &str, system_root: Option<&str>) -> (r: Option<String>)
    requires
        root_split_ok(path@, match system_root {
            Some(s) => Some(s@),
            None => None,
        }),
    ensures
        match spec_block_reason(path@, match system_root {
            Some(s) => Some(s@),
            None => None,
        }) {
            Some(m) => r matches Some(s) && s@ == m,
            None => r is None,
        },
{
    let t = trim_seps_exec(&chars_of(path));
    let n = t.len();
    // the volume-root entries
    if n > 3 && (('a' <= t[0] && t[0] <= 'z') || ('A' <= t[0] && t[0] <= 'Z')) && t[1] == ':' && (t[2] == '\\' || t[2] == '/')
        && !has_sep_from(&t, 3) {
        let ghost name = t@.subrange(3, n as int);
        let managed = eq_name(&t, 3, "$recycle.bin") || eq_name(&t, 3, "system volume information");
        let in_use = eq_name(&t, 3, "pagefile.sys") || eq_name(&t, 3, "hiberfil.sys") || eq_name(&t, 3, "swapfile.sys");
        if managed {
            let mut out = String::new();
            push_chars(&mut out, &t, 3, n);
            push_str(&mut out, " is managed by Windows and can't be deleted");
            return Some(out);
        }
        if in_use {
            let mut out = String::new();
            push_chars(&mut out, &t, 3, n);
            push_str(&mut out, " is in use by Windows and can't be deleted");
            return Some(out);
        }
    }
    let root_str = match system_root {
        None => {
            return None;
        },
        Some(r) => r,
    };
    let root = trim_seps_exec(&chars_of(root_str));
    let k = root.len();
    proof {
        if n == k {
            assert(t@.subrange(0, n as int) =~= t@);
        } else {
            assert(lower_all(t@).len() != lower_all(root@).len());
        }
    }
    if n == k && eq_ci_at(&t, 0, &root) {
        let mut out = String::new();
        push_str(&mut out, "the Windows directory can't be deleted");
        return Some(out);
    }
    if !(n > k && eq_ci_at(&t, 0, &root) && (t[k] == '\\' || t[k] == '/')) {
        return None;
    }
    // the component right below the Windows directory
    let start = k + 1;
    let mut end = start;
    while end < n && t[end] != '\\' && t[end] != '/'
        invariant
            start <= end <= n,
            n == t@.len(),
            first_component(t@.subrange(start as int, n as int)) == t@.subrange(start as int, end as int) + first_component(t@.subrange(end as int, n as int)),
        decreases n - end,
    {
        proof {
            let s = t@.subrange(end as int, n as int);
            assert(s.drop_first() =~= t@.subrange(end + 1, n as int));
            assert(t@.subrange(start as int, end + 1) =~= t@.subrange(start as int, end as int).push(t@[end as int]));
            assert(seq![t@[end as int]] + first_component(t@.subrange(end + 1, n as int)) =~= first_component(s));
            assert(t@.subrange(start as int, end as int) + first_component(s) =~= t@.subrange(start as int, end + 1) + first_component(t@.subrange(end + 1, n as int)));
        }
        end = end + 1;
    }
    proof {
        assert(first_component(t@.subrange(end as int, n as int)) =~= Seq::<char>::empty());
        assert(t@.subrange(start as int, end as int) + Seq::<char>::empty() =~= t@.subrange(start as int, end as int));
    }
    let critical = eq_part(&t, start, end, "System32") || eq_part(&t, start, end, "SysWOW64") || eq_part(&t, start, end, "WinSxS")
        || eq_part(&t, start, end, "Boot") || eq_part(&t, start, end, "Fonts");
    if !critical {
        return None;
    }
    let mut out = String::new();
    if end == n {
        push_chars(&mut out, &t, start, end);
        push_str(&mut out, " is part of Windows and can't be deleted");
    } else {
        push_str(&mut out, "items inside ");
        push_chars(&mut out, &t, start, end);
        push_str(&mut out, " are part of Windows and can't be deleted");
    }
    Some(out)
}

/// `t[from..]` equals `lit` ignoring ASCII case.
fn eq_name(t: &Vec<char>, from: usize, lit: &str) -> (r: bool)
    requires
        from <= t@.len(),
    ensures
        r == eq_ci(t@.subrange(from as int, t@.len() as int), lit@),
{
    eq_part(t, from, t.len(), lit)
}

/// `t[from..to]` equals `lit` ignoring ASCII case.
fn eq_part(t: &Vec<char>, from: usize, to: usize, lit: &str) -> (r: bool)
    requires
        from <= to <= t@.len(),
    ensures
        r == eq_ci(t@.subrange(from as int, to as int), lit@),
{
    let l = chars_from_literal(lit);
    if to - from != l.len() {
        proof {
            assert(lower_all(t@.subrange(from as int, to as int)).len() != lower_all(l@).len());
        }
        return false;
    }
    eq_ci_at(t, from, &l)
}

/// `\\?\C:\x` -> `C:\x`; other verbatim forms (such as `\\?\UNC\...`) and
/// ordinary paths are kept.
pub open spec fn spec_strip_verbatim(p: Seq<char>) -> Seq<char> {
    if p.len() >= 7 && p.subrange(0, 4) == seq!['\\', '\\', '?', '\\'] && is_ascii_alpha(p[4]) && p[5] == ':' && p[6] == '\\' {
        p.subrange(4, p.len() as int)
    } else {
        p
    }
}

/// Strips the verbatim prefix `\\?\` from a plain drive path.
pub fn strip_verbatim_disk_prefix(path: &str) -> (r: String)
    ensures
        r@ == spec_strip_verbatim(path@),
{
    let p = chars_of(path);
    let mut out = String::new();
    if p.len() >= 7 && p[0] == '\\' && p[1] == '\\' && p[2] == '?' && p[3] == '\\' && (('a' <= p[4] && p[4] <= 'z') || (
    'A' <= p[4] && p[4] <= 'Z')) && p[5] == ':' && p[6] == '\\' {
        proof {
            assert(p@.subrange(0, 4) =~= seq!['\\', '\\', '?', '\\']);
        }
        push_chars(&mut out, &p, 4, p.len());
    } else {
        proof {
            if p@.len() >= 7 && p@.subrange(0, 4) == seq!['\\', '\\', '?', '\\'] {
                assert(p@[0] == p@.subrange(0, 4)[0]);
                assert(p@[1] == p@.subrange(0, 4)[1]);
                assert(p@[2] == p@.subrange(0, 4)[2]);
                assert(p@[3] == p@.subrange(0, 4)[3]);
            }
        }
        push_chars(&mut out, &p, 0, p.len());
    }
    proof {
        assert(p@.subrange(0, p@.len() as int) =~= p@);
    }
    out
}

} // verus!
