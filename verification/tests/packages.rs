use typst_vfs::codec::parse_spec_string;
use typst_vfs::codec::WasmPackageSpec;
use typst_vfs::codec::WasmVersion;
use typst_vfs::errors::FileError;
use typst_vfs::package::prepare_package;
use typst_vfs::package::DownloadPlan;
use typst_vfs::package::PackageManager;
use typst_vfs::store::Store;

fn example_coord() -> WasmPackageSpec {
    WasmPackageSpec::new(
        String::from("preview"),
        String::from("example"),
        WasmVersion::new(1, 0, 0),
    )
}

fn make_archive(entries: &[(&str, &[u8])]) -> Vec<u8> {
    let mut builder = tar::Builder::new(Vec::new());
    for (path, data) in entries {
        let mut header = tar::Header::new_gnu();
        header.set_size(data.len() as u64);
        header.set_mode(0o644);
        header.set_cksum();
        builder.append_data(&mut header, path, *data).unwrap();
    }
    let tarball = builder.into_inner().unwrap();
    let mut encoder = flate2::write::GzEncoder::new(Vec::new(), flate2::Compression::default());
    std::io::Write::write_all(&mut encoder, &tarball).unwrap();
    encoder.finish().unwrap()
}

#[test]
fn prepare_rejects_foreign_namespaces() {
    let store = Store::new();
    let pkg = WasmPackageSpec::new(
        String::from("stable"),
        String::from("example"),
        WasmVersion::new(1, 0, 0),
    );
    assert_eq!(prepare_package(&store, &pkg), Err(FileError::AccessDenied));
}

#[test]
fn prepare_reports_a_missing_package() {
    let store = Store::new();
    assert_eq!(prepare_package(&store, &example_coord()), Err(FileError::NotFound));
}

#[test]
fn download_plans_a_fetch_with_the_registry_url() {
    let store = Store::new();
    let manager = PackageManager::new();
    match manager.download_package(&store, &example_coord()) {
        Ok(DownloadPlan::Fetch(url)) => {
            assert_eq!(url, "https://packages.typst.org/preview/example-1.0.0.tar.gz");
        },
        _ => panic!("expected a fetch plan"),
    }
}

#[test]
fn download_rejects_foreign_namespaces() {
    let store = Store::new();
    let manager = PackageManager::new();
    let pkg = WasmPackageSpec::new(
        String::from("stable"),
        String::from("example"),
        WasmVersion::new(1, 0, 0),
    );
    match manager.download_package(&store, &pkg) {
        Err(e) => assert_eq!(e, FileError::AccessDenied),
        Ok(_) => panic!("expected an error"),
    }
}

#[test]
fn download_from_str_parses_the_coordinate() {
    let store = Store::new();
    let manager = PackageManager::new();
    match manager.download_package_from_str(&store, "@preview/example:1.0.0") {
        Ok(DownloadPlan::Fetch(url)) => {
            assert_eq!(url, "https://packages.typst.org/preview/example-1.0.0.tar.gz");
        },
        _ => panic!("expected a fetch plan"),
    }
    match manager.download_package_from_str(&store, "not a coordinate") {
        Err(e) => assert_eq!(e, FileError::Parse),
        Ok(_) => panic!("expected a parse error"),
    }
}

#[test]
fn install_writes_entries_and_the_marker() {
    let mut store = Store::new();
    let manager = PackageManager::new();
    let pkg = example_coord();
    let archive = make_archive(&[("lib.typ", b"let x = 1"), ("data/raw.bin", &[0, 159, 146])]);
    manager.install_archive(&mut store, &pkg, archive).unwrap();
    assert_eq!(
        store.get("packages/preview/example/1.0.0/lib.typ"),
        Some(b"let x = 1".to_vec()),
    );
    assert_eq!(
        store.get("packages/preview/example/1.0.0/data/raw.bin"),
        Some(vec![0, 159, 146]),
    );
    assert!(store.contains("packages/preview/example/1.0.0/."));
    assert_eq!(prepare_package(&store, &pkg), Ok(String::from("packages/preview/example/1.0.0")));
}

#[test]
fn install_rejects_malformed_archives() {
    let mut store = Store::new();
    let manager = PackageManager::new();
    let pkg = example_coord();
    assert_eq!(
        manager.install_archive(&mut store, &pkg, vec![1, 2, 3]),
        Err(FileError::Extraction),
    );
    assert_eq!(store.len(), 0);
}

// One raw ustar entry, so that the archive can carry a path the high-level
// builder would refuse, such as one with `..` components.
fn raw_tar_entry(path: &str, data: &[u8]) -> Vec<u8> {
    let mut header = [0u8; 512];
    header[..path.len()].copy_from_slice(path.as_bytes());
    header[100..108].copy_from_slice(b"0000644\0");
    header[108..116].copy_from_slice(b"0000000\0");
    header[116..124].copy_from_slice(b"0000000\0");
    let size = format!("{:011o}\0", data.len());
    header[124..136].copy_from_slice(size.as_bytes());
    header[136..148].copy_from_slice(b"00000000000\0");
    header[148..156].copy_from_slice(b"        ");
    header[156] = b'0';
    let sum: u32 = header.iter().map(|b| *b as u32).sum();
    let checksum = format!("{:06o}\0 ", sum);
    header[148..156].copy_from_slice(checksum.as_bytes());
    let mut out = header.to_vec();
    out.extend_from_slice(data);
    let padding = (512 - data.len() % 512) % 512;
    out.resize(out.len() + padding, 0);
    out
}

#[test]
fn install_rejects_entries_that_escape_the_package() {
    let mut store = Store::new();
    let manager = PackageManager::new();
    let pkg = example_coord();
    let mut tarball = raw_tar_entry("ok.txt", b"fine");
    tarball.extend_from_slice(&raw_tar_entry("sub/../../evil.txt", b"bad"));
    tarball.resize(tarball.len() + 1024, 0);
    let mut encoder = flate2::write::GzEncoder::new(Vec::new(), flate2::Compression::default());
    std::io::Write::write_all(&mut encoder, &tarball).unwrap();
    let archive = encoder.finish().unwrap();
    assert_eq!(
        manager.install_archive(&mut store, &pkg, archive),
        Err(FileError::AccessDenied),
    );
    // The entry before the offending one stays written; no marker appears.
    assert!(store.contains("packages/preview/example/1.0.0/ok.txt"));
    assert!(!store.contains("packages/preview/example/1.0.0/."));
}

#[test]
fn second_prepare_is_a_cache_hit() {
    let mut store = Store::new();
    let manager = PackageManager::new();
    let pkg = example_coord();
    assert_eq!(prepare_package(&store, &pkg), Err(FileError::NotFound));
    let plan = manager.download_package(&store, &pkg).unwrap();
    assert!(matches!(plan, DownloadPlan::Fetch(_)));
    let archive = make_archive(&[("lib.typ", b"x")]);
    manager.install_archive(&mut store, &pkg, archive).unwrap();
    // No fetch is planned any more, and preparing succeeds without network.
    let plan = manager.download_package(&store, &pkg).unwrap();
    assert!(matches!(plan, DownloadPlan::AlreadyPresent));
    assert_eq!(prepare_package(&store, &pkg), Ok(String::from("packages/preview/example/1.0.0")));
}

#[test]
fn listing_follows_install_and_delete() {
    let mut store = Store::new();
    let manager = PackageManager::new();
    let pkg = example_coord();
    assert_eq!(manager.list_packages(&store).len(), 0);
    let archive = make_archive(&[("lib.typ", b"x")]);
    manager.install_archive(&mut store, &pkg, archive).unwrap();
    let listed = manager.list_packages(&store);
    assert_eq!(listed.len(), 1);
    assert_eq!(listed[0].namespace, "preview");
    assert_eq!(listed[0].name, "example");
    assert_eq!(listed[0].version, WasmVersion::new(1, 0, 0));
    manager.delete_package(&mut store, &pkg);
    assert_eq!(manager.list_packages(&store).len(), 0);
    assert_eq!(store.len(), 0);
}

#[test]
fn listing_ignores_keys_that_are_no_marker() {
    let mut store = Store::new();
    let manager = PackageManager::new();
    store.set("packages/preview/example/1.0.0/lib.typ", vec![1]);
    store.set("packages/preview/example/01.0.0/.", vec![]);
    store.set("unrelated", vec![]);
    assert_eq!(manager.list_packages(&store).len(), 0);
}

#[test]
fn delete_leaves_other_packages_alone() {
    let mut store = Store::new();
    let manager = PackageManager::new();
    let pkg = example_coord();
    let other = WasmPackageSpec::new(
        String::from("preview"),
        String::from("examples"),
        WasmVersion::new(1, 0, 0),
    );
    manager.install_archive(&mut store, &pkg, make_archive(&[("a", b"1")])).unwrap();
    manager.install_archive(&mut store, &other, make_archive(&[("b", b"2")])).unwrap();
    manager.delete_package(&mut store, &pkg);
    let listed = manager.list_packages(&store);
    assert_eq!(listed.len(), 1);
    assert_eq!(listed[0].name, "examples");
}

#[test]
fn end_to_end_install_then_resolve() {
    // The full scenario: parse the spec string, see the package absent,
    // install a simulated download, see it listed, and read an entry's bytes
    // back unchanged through the file cache.
    let mut store = Store::new();
    let manager = PackageManager::new();
    let pkg = parse_spec_string("@preview/example:1.0.0").unwrap();
    assert_eq!(manager.list_packages(&store).len(), 0);
    let payload: &[u8] = &[1, 2, 3, 250, 251];
    let archive = make_archive(&[("assets/blob.bin", payload)]);
    manager.install_archive(&mut store, &pkg, archive).unwrap();
    let listed = manager.list_packages(&store);
    assert_eq!(listed.len(), 1);
    assert_eq!(listed[0].namespace, "preview");
    assert_eq!(listed[0].name, "example");
    assert_eq!(listed[0].version, WasmVersion::new(1, 0, 0));
    let mut vfs = typst_vfs::file::VFS::new();
    let id = typst_vfs::file::FileId::new(Some(pkg), String::from("/assets/blob.bin"));
    assert_eq!(vfs.file(&store, &id), Ok(payload.to_vec()));
}
