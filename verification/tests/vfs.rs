use typst_vfs::codec::WasmPackageSpec;
use typst_vfs::codec::WasmVersion;
use typst_vfs::errors::FileError;
use typst_vfs::file::FileId;
use typst_vfs::file::VFS;
use typst_vfs::package::PackageManager;
use typst_vfs::store::Store;

fn local_id(path: &str) -> FileId {
    FileId::new(None, String::from(path))
}

#[test]
fn main_document_is_served_from_memory() {
    let store = Store::new();
    let mut vfs = VFS::new();
    vfs.set_main(String::from("= Heading"));
    let id = local_id("/main.typ");
    assert_eq!(vfs.source(&store, &id), Ok(String::from("= Heading")));
    assert_eq!(vfs.file(&store, &id), Ok(b"= Heading".to_vec()));
    assert_eq!(vfs.get_main(), "= Heading");
    vfs.set_main(String::from("replaced"));
    assert_eq!(vfs.source(&store, &id), Ok(String::from("replaced")));
    // The main document never creates a cache slot.
    assert_eq!(vfs.slot_count(), 0);
}

#[test]
fn source_reads_and_decodes_store_content() {
    let mut store = Store::new();
    store.set("/doc.typ", b"hello".to_vec());
    let mut vfs = VFS::new();
    assert_eq!(vfs.source(&store, &local_id("/doc.typ")), Ok(String::from("hello")));
}

#[test]
fn source_strips_a_byte_order_mark() {
    let mut store = Store::new();
    let mut bytes = vec![0xef, 0xbb, 0xbf];
    bytes.extend_from_slice(b"content");
    store.set("/bom.typ", bytes);
    let mut vfs = VFS::new();
    assert_eq!(vfs.source(&store, &local_id("/bom.typ")), Ok(String::from("content")));
}

#[test]
fn source_fails_on_invalid_utf8_and_file_returns_raw_bytes() {
    let mut store = Store::new();
    store.set("/raw.bin", vec![0xff, 0x00, 7]);
    let mut vfs = VFS::new();
    assert_eq!(vfs.source(&store, &local_id("/raw.bin")), Err(FileError::Encoding));
    assert_eq!(vfs.file(&store, &local_id("/raw.bin")), Ok(vec![0xff, 0x00, 7]));
}

#[test]
fn missing_files_are_not_found() {
    let store = Store::new();
    let mut vfs = VFS::new();
    assert_eq!(vfs.file(&store, &local_id("/nowhere")), Err(FileError::NotFound));
}

#[test]
fn escaping_paths_are_denied() {
    let store = Store::new();
    let mut vfs = VFS::new();
    assert_eq!(vfs.file(&store, &local_id("/../etc/passwd")), Err(FileError::AccessDenied));
}

#[test]
fn identifiers_with_one_canonical_path_share_a_slot() {
    let mut store = Store::new();
    store.set("/data.bin", vec![1, 2, 3]);
    let mut vfs = VFS::new();
    let direct = local_id("/data.bin");
    let indirect = local_id("/x/../data.bin");
    assert_eq!(vfs.file(&store, &direct), Ok(vec![1, 2, 3]));
    assert_eq!(vfs.file(&store, &indirect), Ok(vec![1, 2, 3]));
    assert_eq!(vfs.slot_count(), 1);
    // A distinct path gets its own slot.
    store.set("/other.bin", vec![9]);
    assert_eq!(vfs.file(&store, &local_id("/other.bin")), Ok(vec![9]));
    assert_eq!(vfs.slot_count(), 2);
}

#[test]
fn first_outcome_is_cached_for_good() {
    let mut store = Store::new();
    store.set("/a.typ", b"first".to_vec());
    let mut vfs = VFS::new();
    assert_eq!(vfs.source(&store, &local_id("/a.typ")), Ok(String::from("first")));
    // Later store changes do not reach the already-loaded slot.
    store.set("/a.typ", b"second".to_vec());
    assert_eq!(vfs.source(&store, &local_id("/a.typ")), Ok(String::from("first")));
}

#[test]
fn package_files_resolve_after_installation() {
    let mut store = Store::new();
    let manager = PackageManager::new();
    let pkg = WasmPackageSpec::new(
        String::from("preview"),
        String::from("example"),
        WasmVersion::new(1, 0, 0),
    );
    let mut vfs = VFS::new();
    let id = FileId::new(Some(pkg.duplicate()), String::from("/lib.typ"));
    // Before installation the package is missing.
    assert_eq!(vfs.source(&store, &id), Err(FileError::NotFound));
    let mut builder = tar::Builder::new(Vec::new());
    let mut header = tar::Header::new_gnu();
    let data: &[u8] = b"let lib = 1";
    header.set_size(data.len() as u64);
    header.set_mode(0o644);
    header.set_cksum();
    builder.append_data(&mut header, "lib.typ", data).unwrap();
    let tarball = builder.into_inner().unwrap();
    let mut encoder = flate2::write::GzEncoder::new(Vec::new(), flate2::Compression::default());
    std::io::Write::write_all(&mut encoder, &tarball).unwrap();
    let archive = encoder.finish().unwrap();
    manager.install_archive(&mut store, &pkg, archive).unwrap();
    // The first failure was cached for this identifier; a fresh identifier
    // referring to the same file now resolves.
    assert_eq!(vfs.source(&store, &id), Err(FileError::NotFound));
    let mut fresh = VFS::new();
    assert_eq!(fresh.source(&store, &id), Ok(String::from("let lib = 1")));
}

#[test]
fn identifier_equality_is_by_components() {
    let a = local_id("/x");
    let b = local_id("/x");
    let c = local_id("/y");
    assert!(a.matches_id(&b));
    assert!(!a.matches_id(&c));
    let p = WasmPackageSpec::new(
        String::from("preview"),
        String::from("example"),
        WasmVersion::new(1, 0, 0),
    );
    let d = FileId::new(Some(p.duplicate()), String::from("/x"));
    let e = FileId::new(Some(p), String::from("/x"));
    assert!(d.matches_id(&e));
    assert!(!d.matches_id(&a));
}
