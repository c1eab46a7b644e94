use ous::metadata::{mtd, services, MetadataError};
use ous::model::{Checksum, Dependency, Package, ServiceSpec};

fn package() -> Package {
    Package {
        name: "hello".into(),
        version: "1.0".into(),
        source: "https://example.com/hello.tar.gz".into(),
        build_type: "make".into(),
        build: vec![],
        install: vec![],
        dependencies: None,
        links: None,
        arch: "x86_64".into(),
        components: None,
        services: Some(vec![ServiceSpec {
            name: "hellod".into(),
            command: "/usr/bin/hellod".into(),
            requires: "net".into(),
            restart: "always".into(),
            description: "Hello daemon".into(),
        }]),
        binaries: Some(vec!["hello".into()]),
        sha256: None,
    }
}

fn sums() -> Vec<Checksum> {
    vec![
        Checksum { kind: "sha256".into(), value: "aa".into() },
        Checksum { kind: "md5".into(), value: "bb".into() },
    ]
}

#[test]
fn metadata_of_a_package() {
    let deps = vec![Dependency { name: "zlib".into(), dep_type: "Manifest".into(), libraries: None }];
    let m = mtd(
        &package(),
        &sums(),
        Some("MD5"),
        deps,
        vec!["usr/lib/libhello.so".into(), "usr/bin/hello".into()],
        vec!["libhello.so".into(), "hello".into(), "libz.so.1".into(), "libhello.so".into()],
        "MIT".into(),
        None,
    )
    .ok()
    .unwrap();
    assert_eq!(m.pkg_name, "hello");
    assert_eq!(m.version, "1.0");
    assert_eq!(m.arch, "x86_64");
    assert_eq!(m.license, "MIT");
    assert_eq!(m.checksum.kind, "md5");
    assert_eq!(m.checksum.value, "bb");
    assert_eq!(m.dependencies.len(), 1);
    assert_eq!(m.files, vec!["usr/bin/hello", "usr/lib/libhello.so"]);
    assert_eq!(m.provides, Some(vec!["libhello.so".to_string(), "libz.so.1".to_string()]));
    assert!(m.conflicts.is_none());
    assert_eq!(m.components.len(), 1);
    assert_eq!(m.components[0].name, "core");
    assert_eq!(m.services.len(), 1);
    assert_eq!(m.services[0].command, "/usr/bin/hellod");
    assert_eq!(m.services[0].restart, "always");
    assert!(m.services[0].environment.is_empty());
    assert_eq!(m.binaries, vec!["hello"]);
}

#[test]
fn metadata_checksum_falls_back_to_first() {
    let m = mtd(&package(), &sums(), Some("sha1"), vec![], vec![], vec![], "X".into(), None)
        .ok()
        .unwrap();
    assert_eq!(m.checksum.kind, "sha256");
    assert_eq!(m.checksum.value, "aa");
}

#[test]
fn metadata_errors() {
    match mtd(&package(), &sums(), Some("crc32"), vec![], vec![], vec![], "X".into(), None) {
        Err(MetadataError::HashType(e)) => assert_eq!(e.value, "crc32"),
        _ => panic!("unsupported hash type must be refused"),
    }
    assert!(matches!(
        mtd(&package(), &vec![], None, vec![], vec![], vec![], "X".into(), None),
        Err(MetadataError::NoChecksum)
    ));
}

#[test]
fn declared_services_carry_over() {
    let s = services(&package());
    assert_eq!(s.len(), 1);
    assert_eq!(s[0].name, "hellod");
    assert_eq!(s[0].requires, "net");
    assert!(s[0].socket.is_none());
}
