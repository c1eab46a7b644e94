use ous::deps::{
    autotools_deps, cargo_deps, cmake_deps, is_indexed_library, is_library_file,
    is_provided_library, is_skipped_dir, meson_deps, npm_deps, pkgconfig_deps, readelf_needed,
    scan_file,
};
use ous::order::sort_dedup_pairs;

#[test]
fn test_pkgconfig_requires_parsing() {
    let names = pkgconfig_deps("Requires: glib-2.0 >= 2.50 zlib\nRequires.private: openssl\n");
    assert!(names.contains(&"glib-2.0".to_string()));
    assert!(names.contains(&"zlib".to_string()));
    assert!(names.contains(&"openssl".to_string()));
    assert_eq!(names, vec!["glib-2.0", "2.50", "zlib", "openssl"]);
    assert_eq!(pkgconfig_deps("  requires: a(>=1) and b\nName: x\n"), vec!["a", "b"]);
}

#[test]
fn test_meson_dependency_parsing() {
    let names = meson_deps(
        "project('x')\ndep = dependency('libpcre2-8', version: '>=10.0')\ndep2 = dependency('zlib')\n",
    );
    assert!(names.contains(&"libpcre2-8".to_string()));
    assert!(names.contains(&"zlib".to_string()));
    assert_eq!(names, vec!["libpcre2-8", "zlib"]);
}

#[test]
fn cargo_manifest_keys() {
    let c = "[package]\nname = \"x\"\n[dependencies]\nserde = \"1\"\nanyhow = \"1\"\n[dev-dependencies]\ntempfile = \"3\"\n[workspace.dependencies]\nregex = \"1\"\n";
    assert_eq!(cargo_deps(c), vec!["anyhow", "serde", "tempfile", "regex"]);
    assert!(cargo_deps("not [ toml").is_empty());
}

#[test]
fn npm_manifest_keys() {
    let c = r#"{"dependencies": {"react": "18", "axios": "1"}, "devDependencies": {"jest": "29"}}"#;
    assert_eq!(npm_deps(c), vec!["axios", "react", "jest"]);
    assert!(npm_deps("{").is_empty());
}

#[test]
fn cmake_and_autotools() {
    assert_eq!(cmake_deps("find_package(ZLIB REQUIRED)\nFIND_PACKAGE ( Qt5 )"), vec!["ZLIB", "Qt5"]);
    let (pc, libs) = autotools_deps("PKG_CHECK_MODULES([GLIB], [glib-2.0])\nPKG_CHECK_MODULES(X, \"gtk+-3.0\")\nAC_CHECK_LIB(m, cos)\n");
    assert_eq!(pc, vec!["gtk+-3.0"]);
    assert_eq!(libs, vec!["m"]);
}

#[test]
fn scan_file_labels_by_kind() {
    let d = scan_file("meson.build", "dependency('zlib')");
    assert_eq!(d, vec![("zlib".to_string(), "Build (meson)".to_string())]);
    let d = scan_file("foo.pc", "Requires: a\n");
    assert_eq!(d, vec![("a".to_string(), "Build (pkg-config)".to_string())]);
    let d = scan_file("x.cmake", "find_package(Boost)");
    assert_eq!(d, vec![("Boost".to_string(), "Build (cmake)".to_string())]);
    assert!(scan_file("README", "dependency('zlib')").is_empty());
}

#[test]
fn source_scan_results_sorted_and_distinct() {
    let mut all = scan_file("meson.build", "dependency('zlib')\ndependency('zlib')\ndependency('abc')");
    all.extend(scan_file("foo.pc", "Requires: zlib"));
    let r = sort_dedup_pairs(all);
    assert_eq!(
        r,
        vec![
            ("abc".to_string(), "Build (meson)".to_string()),
            ("zlib".to_string(), "Build (meson)".to_string()),
            ("zlib".to_string(), "Build (pkg-config)".to_string()),
        ]
    );
}

#[test]
fn library_file_predicates() {
    assert!(is_library_file("libz.so"));
    assert!(is_library_file("libz.a"));
    assert!(!is_library_file("libz.so.1"));
    assert!(is_indexed_library("libz.so.1"));
    assert!(is_provided_library("libz.so.1"));
    assert!(!is_provided_library("libz.a"));
    assert!(is_skipped_dir("node_modules"));
    assert!(!is_skipped_dir("src"));
}

#[test]
fn readelf_lines() {
    assert_eq!(
        readelf_needed(" 0x0000000000000001 (NEEDED)             Shared library: [libc.so.6]"),
        Ok(Some("libc.so.6".to_string()))
    );
    assert_eq!(readelf_needed(" 0x000000000000000c (INIT) 0x1000"), Ok(None));
    assert_eq!(readelf_needed("(NEEDED) ]x["), Err(()));
}
