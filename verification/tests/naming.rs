use ous::clock::iso8601_utc;
use ous::metadata::{provenance, revision_from, wants_revision};
use ous::pipeline::archive_path;
use ous::naming::{
    canonical_arch, detect_source_type, parse_xcs_name, sh_quote, validate_path_component,
    validate_version_component, version_sort_key,
};

#[test]
fn test_parse_xcs_name_variants() {
    assert_eq!(
        parse_xcs_name("hello-1.0.xcs"),
        Some(("hello".into(), "1.0".into()))
    );
    assert_eq!(
        parse_xcs_name("libfoo-1.0-beta.xcs"),
        Some(("libfoo".into(), "1.0-beta".into()))
    );
    assert_eq!(
        parse_xcs_name("shared-mime-info-2.4rc1.xcs"),
        Some(("shared-mime-info".into(), "2.4rc1".into()))
    );
    assert_eq!(
        parse_xcs_name("openssl-3.2.1.tar.gz.xcs"),
        None,
        "garbage versions must not parse"
    );
    assert_eq!(parse_xcs_name("noversion.xcs"), None);
    assert_eq!(parse_xcs_name("-1.0.xcs"), None, "empty name rejected");
}

#[test]
fn test_version_sort_key_natural() {
    assert!(version_sort_key("1.10") > version_sort_key("1.9"));
    assert!(version_sort_key("1.2") < version_sort_key("1.10"));
    assert_eq!(version_sort_key("1.0"), version_sort_key("1.0"));
}

#[test]
fn test_version_component_validation() {
    assert!(validate_version_component("1.0-beta", "package version").is_ok());
    assert!(validate_version_component("../evil", "package version").is_err());
    assert!(validate_version_component("a/b", "package version").is_err());
    assert!(validate_version_component("", "package version").is_err());
}

#[test]
fn test_canonical_arch_mapping() {
    assert_eq!(canonical_arch("x86_64").ok().unwrap(), "x86_64");
    assert_eq!(canonical_arch("aarch64").ok().unwrap(), "aarch64");
    assert_eq!(canonical_arch("native").ok().unwrap(), "native");
    assert_eq!(canonical_arch("amd64").ok().unwrap(), "x86_64");
    assert_eq!(canonical_arch("arm64").ok().unwrap(), "aarch64");
    assert_eq!(canonical_arch("").ok().unwrap(), "native");
    assert_eq!(canonical_arch("  x86_64  ").ok().unwrap(), "x86_64");
}

#[test]
fn test_canonical_arch_rejects_unknown() {
    assert!(canonical_arch("i686").is_err());
    assert!(canonical_arch("riscv64").is_err());
    assert!(canonical_arch("x86_64-unknown-linux-musl").is_err());
    assert!(canonical_arch("arm").is_err());
    let err = match canonical_arch("powerpc64") {
        Err(e) => e.message(),
        Ok(_) => panic!("powerpc64 must be rejected"),
    };
    assert!(
        err.contains("powerpc64"),
        "error must name the rejected value: {}",
        err
    );
}

#[test]
fn test_detect_source_type_variants() {
    assert_eq!(detect_source_type("/tmp/some/local/dir"), "dir");
    assert_eq!(detect_source_type(""), "dir");
    assert_eq!(detect_source_type("https://example.com/foo.tar.gz"), "http");
    assert_eq!(detect_source_type("http://example.com/foo"), "http");
    assert_eq!(detect_source_type("file:///tmp/foo.tar.xz"), "file");
    assert_eq!(detect_source_type("git@github.com:org/repo.git"), "git");
    assert_eq!(detect_source_type("git://example.com/repo.git"), "git");
    assert_eq!(detect_source_type("https://example.com/repo.git"), "git");
    assert_eq!(detect_source_type("s3://bucket/object"), "url");
}

#[test]
fn canonical_arch_is_idempotent_on_examples() {
    for raw in ["amd64", "arm64", " native ", "", "x86_64"] {
        let once = canonical_arch(raw).ok().unwrap();
        let twice = canonical_arch(&once).ok().unwrap();
        assert_eq!(once, twice);
    }
}

#[test]
fn canonical_arch_error_text() {
    let e = canonical_arch(" sparc ").err().unwrap();
    assert_eq!(e.value, "sparc");
    assert_eq!(
        e.message(),
        "Unsupported architecture 'sparc': expected x86_64, aarch64, native, amd64, or arm64"
    );
}

#[test]
fn path_component_rules() {
    assert!(validate_path_component("hello-world_1.2", "package name").is_ok());
    assert!(validate_path_component(".hidden", "package name").is_err());
    assert!(validate_path_component("a b", "package name").is_err());
    assert!(validate_path_component("a..b", "package name").is_err());
    assert!(validate_path_component("", "package name").is_err());
    let e = validate_path_component("x/y", "package arch").err().unwrap();
    assert_eq!(e.label, "package arch");
    assert_eq!(e.value, "x/y");
}

#[test]
fn path_component_is_version_component() {
    for v in ["1.0", "abc", "x_y-z"] {
        assert!(validate_path_component(v, "l").is_ok());
        assert!(validate_version_component(v, "l").is_ok());
    }
}

#[test]
fn parse_xcs_name_more() {
    assert_eq!(
        parse_xcs_name("foo-2.0.0-rc.1.xcs"),
        Some(("foo".into(), "2.0.0-rc.1".into()))
    );
    assert_eq!(parse_xcs_name("foo-1.0"), None);
    assert_eq!(
        parse_xcs_name("foo-1.0.tar.xcs"),
        Some(("foo".into(), "1.0.tar".into()))
    );
    assert_eq!(parse_xcs_name("foo-1.0.tar.gz.xcs"), None);
}

#[test]
fn version_sort_key_orders() {
    assert!(version_sort_key("2.0") > version_sort_key("1.99"));
    assert!(version_sort_key("1.0.1") > version_sort_key("1.0"));
    assert_ne!(version_sort_key("1.0a"), version_sort_key("1.0"));
}

#[test]
fn sh_quote_escapes_single_quotes() {
    assert_eq!(sh_quote("abc"), "'abc'");
    assert_eq!(sh_quote("it's"), "'it'\\''s'");
    assert_eq!(sh_quote(""), "''");
}

#[test]
fn iso8601_known_instants() {
    assert_eq!(iso8601_utc(0), "1970-01-01T00:00:00Z");
    assert_eq!(iso8601_utc(86399), "1970-01-01T23:59:59Z");
    assert_eq!(iso8601_utc(951782400), "2000-02-29T00:00:00Z");
    assert_eq!(iso8601_utc(1767225600), "2026-01-01T00:00:00Z");
    assert_eq!(iso8601_utc(1709210096), "2024-02-29T12:34:56Z");
    assert_eq!(iso8601_utc(4102444799), "2099-12-31T23:59:59Z");
}

#[test]
fn test_build_provenance_source_types() {
    let dir = "/tmp/prov-src";
    assert!(!wants_revision(dir, dir));
    let prov = provenance(dir, None, iso8601_utc(1767225600), "0.7.0");
    assert_eq!(prov.source_type, "dir");
    assert_eq!(prov.source_url, dir);
    assert!(prov.source_revision.is_none(), "dir sources must have no revision");
    assert!(!prov.built_at.is_empty(), "built_at must be non-empty");
    assert_eq!(prov.builder, "ous-0.7.0");

    assert!(!wants_revision("https://example.com/foo.tar.gz", dir));
    let prov = provenance("https://example.com/foo.tar.gz", None, iso8601_utc(0), "0.7.0");
    assert_eq!(prov.source_type, "http");
    assert_eq!(prov.source_url, "https://example.com/foo.tar.gz");
    assert!(prov.source_revision.is_none(), "http sources must have no revision");
    assert_eq!(prov.builder, "ous-0.7.0");

    let prov = provenance("file:///tmp/foo.tar.xz", None, iso8601_utc(0), "0.7.0");
    assert_eq!(prov.source_type, "file");
    assert!(prov.source_revision.is_none());
}

#[test]
fn git_revision_from_command_output() {
    assert!(wants_revision("https://example.com/repo.git", "/src"));
    assert!(!wants_revision("https://example.com/repo.git", ""));
    assert_eq!(revision_from(true, b"abc123\n"), Some("abc123".to_string()));
    assert_eq!(revision_from(false, b"abc123\n"), None);
    assert_eq!(revision_from(true, &[0xff, 0xfe]), None);
}

#[test]
fn archive_names_parse_back() {
    for (n, v) in [("hello", "1.0"), ("shared-mime-info", "2.4rc1"), ("libfoo", "1.0-beta.2")] {
        let path = archive_path("/out", n, v);
        let file = path.rsplit('/').next().unwrap();
        assert_eq!(parse_xcs_name(file), Some((n.to_string(), v.to_string())));
    }
}

#[test]
fn sh_quote_keeps_expansions_literal() {
    assert_eq!(sh_quote("$(rm -rf x)"), "'$(rm -rf x)'");
    assert_eq!(sh_quote("a 'b' $c"), "'a '\\''b'\\'' $c'");
}
