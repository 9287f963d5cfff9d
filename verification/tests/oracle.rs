use mathom::oracle::{Rng, base_name, bend_str, ext_name, h};

#[test]
fn splitmix_stream_matches_the_reference_values() {
    let mut r = Rng(0);
    assert_eq!(r.next(), 0xE220_A839_7B1D_CDAF);
    assert_eq!(r.next(), 0x6E78_9E6A_A1B9_65F4);
    let mut r = Rng(0);
    assert_eq!(r.below(100), 0xE220_A839_7B1D_CDAF % 100);
    assert!(!Rng(0).chance(0));
    assert!(Rng(0).chance(100));
}

#[test]
fn edge_bytes_follow_the_eighths() {
    // The second output of seed 0 is 4 modulo 8 → 0x01.
    let mut r = Rng(0);
    r.next();
    assert_eq!(r.edge_byte(), 0x01);
    let mut r = Rng(0);
    let first = 0xE220_A839_7B1D_CDAFu64 % 8; // 7: a plain byte of the next output
    assert_eq!(first, 7);
    assert_eq!(r.edge_byte(), (0x6E78_9E6A_A1B9_65F4u64 % 256) as u8);
}

#[test]
fn integer_hash_matches_known_values() {
    assert_eq!(h(0), 0);
    assert_eq!(h(1), 1_753_845_952);
    assert_eq!(h(12345), 2_435_775_735);
}

#[test]
fn bend_strings_escape_quotes_backslashes_and_non_ascii() {
    assert_eq!(bend_str("plain text"), "\"plain text\"");
    assert_eq!(bend_str("a\"b\\c"), "\"a\\\"b\\\\c\"");
    assert_eq!(bend_str("résumé"), "\"r\\u{e9}sum\\u{e9}\"");
    assert_eq!(bend_str("日\n"), "\"\\u{65e5}\\u{a}\"");
}

#[test]
fn seeded_tree_is_a_scanner_stream_and_repeats() {
    let b = mathom::oracle::generate(7, 6, false).expect("small tree fits");
    assert!(!b.entries.is_empty());
    assert_eq!(b.entries[0].path_id, 0);
    assert!(b.entries[0].flags.is_dir());
    for (k, e) in b.entries.iter().enumerate().skip(1) {
        assert_eq!(e.path_id as usize, k);
        assert!((e.parent_id as usize) < k);
        assert!(b.entries[e.parent_id as usize].flags.is_dir());
        assert!(e.size < 1_048_576);
    }
    let again = mathom::oracle::generate(7, 6, false).expect("same seed");
    assert_eq!(again.entries.len(), b.entries.len());
    assert_eq!(again.names, b.names);
    let t = mathom::oracle::build(7, 6, false).expect("fits the tree");
    assert_eq!(t.len(), b.entries.len());
    let files: u64 = b.entries.iter().filter(|e| !e.flags.is_dir()).map(|e| e.size).sum();
    assert_eq!(t.node(0).size, files);
    assert_eq!(t.node(0).items as usize, b.entries.len() - 1);
}

#[test]
fn stem_and_extension_tables() {
    let stems = [
        "report", "IMG_", "photo", "Draft-REPORT", "notes", "data", "kernel32", "setup", "movie", "backup",
        "résumé", "日本", "a b", "x",
    ];
    let exts = [
        "pdf", "PDF", "mkv", "mp4", "jpg", "JPEG", "txt", "rs", "dll", "sys", "exe", "bin", "log", "", "gz",
        "weird1234", "Ω", "tar",
    ];
    for (i, s) in stems.iter().enumerate() {
        assert_eq!(base_name(i as u32), *s);
    }
    for (i, e) in exts.iter().enumerate() {
        assert_eq!(ext_name(i as u32), *e);
    }
}

struct RefGen {
    out: Vec<(u32, u32, u16, u64, u64, String)>,
    huge: bool,
}

impl RefGen {
    fn node(&mut self, seed: u32, depth: u32, parent: u32, is_root: bool) {
            let id = self.out.len() as u32;
        let r = h(seed);
        let thresh = if depth > 4 { 3 } else { 1 };
        let dir = is_root || (depth > 0 && r % 8 < thresh);
        let sys = !is_root && h(seed ^ 0x5bd1_e995) % 16 == 0;
        let mut flags: u16 = if dir { 1 } else { 0 };
        if sys {
            flags |= 128;
        }
        if dir {
            self.out.push((id, parent, flags, 0, 0, format!("dir{}", r % 1000)));
            let nk = h(seed.wrapping_add(1)) % 13;
            for i in 0..nk {
                let kid = h(seed ^ h(i.wrapping_add(0x9e37_79b9)));
                self.node(kid, depth.saturating_sub(1), id, false);
            }
        } else {
            let s = h(seed.wrapping_add(2));
            let kind = h(seed.wrapping_add(3)) % 64;
            let size: u64 = if kind == 0 && self.huge {
                ((h(seed.wrapping_add(4)) as u64) << 32) | s as u64
            } else if kind < 4 {
                0
            } else {
                (s % 1_048_576) as u64
            };
            let alloc = size.saturating_add(4095) & !4095;
            let base = base_name(h(seed.wrapping_add(5)) % 14);
            let ext = ext_name(h(seed.wrapping_add(6)) % 18);
            let mut name = format!("{base}{}", r % 1000);
            if !ext.is_empty() {
                name.push('.');
                name.push_str(ext);
            }
            self.out.push((id, parent, flags, size, alloc, name));
        }
    }
}

fn check_against_reference(seed: u32, depth: u32, huge: bool) {
    let mut g = RefGen { out: Vec::new(), huge };
    g.node(seed, depth, 0, true);
    let b = mathom::oracle::generate(seed, depth, huge).expect("fits");
    assert_eq!(b.entries.len(), g.out.len());
    for (e, want) in b.entries.iter().zip(g.out.iter()) {
        assert_eq!(e.path_id, want.0);
        assert_eq!(e.parent_id, want.1);
        assert_eq!(e.flags.0, want.2);
        assert_eq!(e.size, want.3);
        assert_eq!(e.allocated_size, want.4);
        assert_eq!(e.mtime, 0);
        let off = e.name_off as usize;
        assert_eq!(&b.names[off..off + e.name_len as usize], want.5.as_str());
    }
}

#[test]
fn seeded_batch_matches_an_independent_generator() {
    check_against_reference(7, 6, false);
    check_against_reference(1, 8, true);
    check_against_reference(0xdead_beef, 5, true);
    check_against_reference(42, 0, false);
}

#[test]
fn seeded_root_is_named_after_its_hash() {
    let b = mathom::oracle::generate(3, 0, false).expect("fits");
    // Below a root at depth 0 every child is a file.
    assert_eq!(b.entries.len(), 1 + kids_at_depth_zero(3));
    assert!(b.entries[1..].iter().all(|e| e.flags.0 & 1 == 0 && e.parent_id == 0));
    assert_eq!(&b.names[..b.entries[0].name_len as usize], format!("dir{}", h(3) % 1000));
    assert_eq!(b.entries[0].flags.0 & 128, 0);
}

fn kids_at_depth_zero(seed: u32) -> usize {
    (h(seed.wrapping_add(1)) % 13) as usize
}

fn fold(acc: u32, v: u64) -> u32 {
    h(acc ^ h((v as u32) ^ h((v >> 32) as u32)))
}

#[test]
fn digest_lists_root_totals_and_the_aggregate_sum() {
    let t = mathom::oracle::build(7, 6, true).expect("fits the tree");
    let n = t.len() as u32;
    let root = t.node(0);
    let mut sum = 0u32;
    for id in 0..n {
        let nd = t.node(id);
        sum = sum.wrapping_add(fold(fold(h(id ^ h(nd.items)), nd.size), nd.allocated));
    }
    let want = format!(
        "nodes {n}\nroot {:016x} {:016x} {}\naggsum {sum:08x}\n",
        root.size, root.allocated, root.items
    );
    assert_eq!(mathom::oracle::digest(&t), want);
    assert_eq!(mathom::oracle::fold_mix(0, 0), fold(0, 0));
    assert_eq!(mathom::oracle::fold_mix(5, 0x1234_5678_9abc_def0), fold(5, 0x1234_5678_9abc_def0));
}

#[test]
fn category_lines_give_the_slot_and_the_extension_key() {
    use_category_line("movie.mkv", "1 mkv");
    use_category_line("MOVIE.MKV", "1 mkv");
    use_category_line("main.ts", "1 ts");
    use_category_line("README", "10 -");
    use_category_line("trailing.", "10 -");
    use_category_line("weird.xyz123", "10 xyz123");
    use_category_line("a.b.c.pdf", "5 pdf");
    use_category_line("x.EXE", "7 exe");
    use_category_line("", "10 -");
}

fn use_category_line(name: &str, want: &str) {
    assert_eq!(mathom::oracle::category_line(name), want, "{name}");
}
