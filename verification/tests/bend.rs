use mathom::bend::{bend_bytes, bend_bytes_module, bend_list};

#[test]
fn byte_lists_are_decimal_and_comma_separated() {
    assert_eq!(bend_bytes(&vec![]), "[]");
    assert_eq!(bend_bytes(&vec![0]), "[0]");
    assert_eq!(bend_bytes(&vec![0x21, 0xFF, 7, 100]), "[33, 255, 7, 100]");
}

#[test]
fn list_module_is_cut_into_chunks() {
    let items: Vec<String> = ["\"a\"", "\"b\"", "\"c\""].iter().map(|s| s.to_string()).collect();
    let want = "import Base\n\n\
def names.c0() -> List<&2, String>:\n  [\"a\",\n   \"b\"]\n\n\
def names.c1() -> List<&2, String>:\n  [\"c\"]\n\n\
def names() -> List<&2, List<&2, String>>:\n  [names.c0(), names.c1()]\n";
    assert_eq!(bend_list("names", "String", &items, 2), want);
}

#[test]
fn list_module_of_nothing_has_no_chunks() {
    let want = "import Base\n\ndef names() -> List<&2, List<&2, String>>:\n  []\n";
    assert_eq!(bend_list("names", "String", &Vec::new(), 250), want);
}

#[test]
fn exact_multiple_of_the_chunk_size_leaves_no_empty_chunk() {
    let items: Vec<String> = ["1", "2", "3", "4"].iter().map(|s| s.to_string()).collect();
    let text = bend_list("xs", "U32", &items, 2);
    assert!(text.contains("def xs.c1() -> List<&2, U32>:\n  [3,\n   4]\n\n"));
    assert!(!text.contains("xs.c2"));
    assert!(text.ends_with("def xs() -> List<&2, List<&2, U32>>:\n  [xs.c0(), xs.c1()]\n"));
}

#[test]
fn byte_cases_module() {
    let cases = vec![vec![1u8, 2], vec![], vec![0x80]];
    let want = "import Base\n\n\
def cases.c0() -> List<&2, List<&2, U32>>:\n  [[1, 2],\n   [],\n   [128]]\n\n\
def cases() -> List<&2, List<&2, List<&2, U32>>>:\n  [cases.c0()]\n";
    assert_eq!(bend_bytes_module("cases", &cases, 250), want);
}
