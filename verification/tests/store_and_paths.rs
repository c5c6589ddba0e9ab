use typst_vfs::errors::FileError;
use typst_vfs::paths::join_rooted;
use typst_vfs::store::Store;
use typst_vfs::text::decode_utf8;

#[test]
fn store_set_get_contains() {
    let mut store = Store::new();
    assert!(!store.contains("/a.txt"));
    assert_eq!(store.get("/a.txt"), None);
    store.set("/a.txt", vec![1, 2, 3]);
    assert!(store.contains("/a.txt"));
    assert_eq!(store.get("/a.txt"), Some(vec![1, 2, 3]));
    store.set("/a.txt", vec![9]);
    assert_eq!(store.get("/a.txt"), Some(vec![9]));
    assert_eq!(store.len(), 1);
}

#[test]
fn store_delete_reports_presence() {
    let mut store = Store::new();
    store.set("/a", vec![0]);
    assert!(store.delete("/a"));
    assert!(!store.delete("/a"));
    assert!(!store.contains("/a"));
}

#[test]
fn store_lists_keys_in_insertion_order() {
    let mut store = Store::new();
    store.set("/b", vec![]);
    store.set("/a", vec![]);
    store.set("/b", vec![1]);
    let keys = store.list();
    assert_eq!(keys, vec![String::from("/b"), String::from("/a")]);
}

#[test]
fn join_resolves_dots_and_empty_segments() {
    assert_eq!(join_rooted("", "/main.typ"), Some(String::from("/main.typ")));
    assert_eq!(join_rooted("pkg", "lib.typ"), Some(String::from("pkg/lib.typ")));
    assert_eq!(join_rooted("pkg", "./lib.typ"), Some(String::from("pkg/lib.typ")));
    assert_eq!(join_rooted("pkg", "a//b/./c"), Some(String::from("pkg/a/b/c")));
    assert_eq!(join_rooted("pkg", "a/../b"), Some(String::from("pkg/b")));
    assert_eq!(join_rooted("pkg", ""), Some(String::from("pkg")));
}

#[test]
fn join_rejects_paths_that_escape_the_root() {
    assert_eq!(join_rooted("pkg", ".."), None);
    assert_eq!(join_rooted("pkg", "../x"), None);
    assert_eq!(join_rooted("pkg", "a/../../x"), None);
    assert_eq!(join_rooted("", "/a/../../x"), None);
    assert_eq!(join_rooted("pkg", "a/b/../../../x"), None);
}

#[test]
fn decode_strips_byte_order_mark() {
    let mut bytes = vec![0xef, 0xbb, 0xbf];
    bytes.extend_from_slice("hi there".as_bytes());
    assert_eq!(decode_utf8(bytes), Ok(String::from("hi there")));
}

#[test]
fn decode_leaves_plain_utf8_unchanged() {
    let text = "growing \u{00e9}\u{6587}";
    assert_eq!(decode_utf8(text.as_bytes().to_vec()), Ok(String::from(text)));
    assert_eq!(decode_utf8(Vec::new()), Ok(String::new()));
}

#[test]
fn decode_rejects_invalid_utf8() {
    assert_eq!(decode_utf8(vec![0xff, 0xfe]), Err(FileError::Encoding));
    assert_eq!(decode_utf8(vec![0xef, 0xbb, 0xbf, 0xff]), Err(FileError::Encoding));
    assert_eq!(decode_utf8(vec![0xc3]), Err(FileError::Encoding));
}

#[test]
fn error_descriptions_name_the_failure() {
    assert_eq!(FileError::NotFound.describe(), "file or package not found");
    assert_eq!(FileError::Encoding.describe(), "invalid utf-8");
}
