use mathom::interner::NameInterner;

#[test]
fn interning_same_name_returns_same_ref_and_stores_once() {
    let mut i = NameInterner::new();
    let a = i.intern("node_modules");
    let b = i.intern("node_modules");
    assert_eq!(a, b);
    assert_eq!(i.bytes_used(), "node_modules".len());
    assert_eq!(i.get(a), "node_modules");
}

#[test]
fn distinct_names_get_distinct_refs() {
    let mut i = NameInterner::new();
    let a = i.intern("alpha");
    let b = i.intern("beta");
    assert_ne!(a, b);
    assert_eq!(i.get(a), "alpha");
    assert_eq!(i.get(b), "beta");
    assert_eq!(i.bytes_used(), "alphabeta".len());
}

#[test]
fn empty_name_is_valid() {
    let mut i = NameInterner::new();
    let r = i.intern("");
    assert_eq!(i.get(r), "");
}

#[test]
fn releasing_index_keeps_names_readable() {
    let mut i = NameInterner::new();
    let r = i.intern("node_modules");

    let dead = i.release_index();

    assert_eq!(dead.len(), 1);
    assert!(i.release_index().is_empty());
    assert_eq!(i.get(r), "node_modules");
}
