use typst_vfs::codec::parse_marker_key;
use typst_vfs::codec::parse_spec_string;
use typst_vfs::codec::parse_storage_path;
use typst_vfs::codec::parse_version;
use typst_vfs::codec::WasmPackageSpec;
use typst_vfs::codec::WasmVersion;
use typst_vfs::decimal::parse_canonical_u32;
use typst_vfs::decimal::u32_to_string;

fn coord(namespace: &str, name: &str, major: u32, minor: u32, patch: u32) -> WasmPackageSpec {
    WasmPackageSpec::new(
        String::from(namespace),
        String::from(name),
        WasmVersion::new(major, minor, patch),
    )
}

#[test]
fn decimal_formatting_is_canonical() {
    assert_eq!(u32_to_string(0), "0");
    assert_eq!(u32_to_string(7), "7");
    assert_eq!(u32_to_string(10), "10");
    assert_eq!(u32_to_string(230), "230");
    assert_eq!(u32_to_string(4294967295), "4294967295");
}

#[test]
fn decimal_parsing_accepts_exactly_canonical_notations() {
    assert_eq!(parse_canonical_u32("0"), Some(0));
    assert_eq!(parse_canonical_u32("42"), Some(42));
    assert_eq!(parse_canonical_u32("4294967295"), Some(4294967295));
    assert_eq!(parse_canonical_u32(""), None);
    assert_eq!(parse_canonical_u32("01"), None);
    assert_eq!(parse_canonical_u32("00"), None);
    assert_eq!(parse_canonical_u32("4294967296"), None);
    assert_eq!(parse_canonical_u32("12a"), None);
    assert_eq!(parse_canonical_u32("-3"), None);
}

#[test]
fn version_string_formats_the_triple() {
    assert_eq!(WasmVersion::new(1, 0, 0).to_version_string(), "1.0.0");
    assert_eq!(WasmVersion::new(0, 12, 345).to_version_string(), "0.12.345");
}

#[test]
fn version_parsing_accepts_exactly_canonical_triples() {
    let v = parse_version("1.2.3").unwrap();
    assert_eq!((v.major, v.minor, v.patch), (1, 2, 3));
    assert!(parse_version("1.2").is_none());
    assert!(parse_version("1.2.3.4").is_none());
    assert!(parse_version("1.02.3").is_none());
    assert!(parse_version("a.2.3").is_none());
    assert!(parse_version("").is_none());
}

#[test]
fn spec_string_formats_the_coordinate() {
    let p = coord("preview", "example", 1, 0, 0);
    assert_eq!(p.to_spec_string(), "@preview/example:1.0.0");
}

#[test]
fn storage_path_and_marker_key_format_the_coordinate() {
    let p = coord("preview", "example", 1, 0, 0);
    assert_eq!(p.package_directory(), "packages/preview/example/1.0.0");
    assert_eq!(p.package_directory_key(), "packages/preview/example/1.0.0/.");
}

#[test]
fn spec_string_round_trip() {
    let p = coord("preview", "cetz", 0, 2, 11);
    let q = parse_spec_string(&p.to_spec_string()).unwrap();
    assert_eq!(q.namespace, p.namespace);
    assert_eq!(q.name, p.name);
    assert_eq!(q.version, p.version);
}

#[test]
fn storage_path_round_trip() {
    let p = coord("local", "my-pkg", 12, 0, 3);
    let q = parse_storage_path(&p.package_directory()).unwrap();
    assert_eq!(q.namespace, p.namespace);
    assert_eq!(q.name, p.name);
    assert_eq!(q.version, p.version);
}

#[test]
fn marker_key_round_trip() {
    let p = coord("preview", "example", 1, 0, 0);
    let q = parse_marker_key(&p.package_directory_key()).unwrap();
    assert_eq!(q.namespace, p.namespace);
    assert_eq!(q.name, p.name);
    assert_eq!(q.version, p.version);
}

#[test]
fn spec_string_parsing_rejects_malformed_strings() {
    assert!(parse_spec_string("").is_none());
    assert!(parse_spec_string("preview/example:1.0.0").is_none());
    assert!(parse_spec_string("@/example:1.0.0").is_none());
    assert!(parse_spec_string("@preview/:1.0.0").is_none());
    assert!(parse_spec_string("@preview/example").is_none());
    assert!(parse_spec_string("@preview/example:1.0").is_none());
    assert!(parse_spec_string("@preview/example:1.0.0x").is_none());
    assert!(parse_spec_string("@preview/example:01.0.0").is_none());
    assert!(parse_spec_string("@pre:view/example:1.0.0").is_none());
    assert!(parse_spec_string("@preview/exa/mple:1.0.0").is_none());
}

#[test]
fn storage_path_parsing_rejects_malformed_paths() {
    assert!(parse_storage_path("").is_none());
    assert!(parse_storage_path("package/preview/example/1.0.0").is_none());
    assert!(parse_storage_path("packages//example/1.0.0").is_none());
    assert!(parse_storage_path("packages/preview//1.0.0").is_none());
    assert!(parse_storage_path("packages/preview/example/1.0").is_none());
    assert!(parse_storage_path("packages/preview/example/1.0.0/extra").is_none());
    assert!(parse_storage_path("packages/preview/example/01.0.0").is_none());
}

#[test]
fn marker_key_parsing_requires_the_sentinel_suffix() {
    assert!(parse_marker_key("packages/preview/example/1.0.0").is_none());
    assert!(parse_marker_key("packages/preview/example/1.0.0/x").is_none());
    assert!(parse_marker_key("packages/preview/example/1.0.0/.").is_some());
}

#[test]
fn accessors_and_setters_replace_components() {
    let mut p = coord("preview", "example", 1, 0, 0);
    assert_eq!(p.namespace(), "preview");
    assert_eq!(p.name(), "example");
    p.set_namespace("local");
    p.set_name("other");
    assert_eq!(p.to_spec_string(), "@local/other:1.0.0");
}
