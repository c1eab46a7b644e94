use ous::deps::normalize;
use ous::graph::transitive;
use ous::model::{Checksum, Dependency, DependencyEntry, Package, PackageMetadata};
use ous::resolve::{candidate_from, cdd, loadex, mltp, scan};

fn package(name: &str, deps: Option<Vec<DependencyEntry>>) -> Package {
    Package {
        name: name.into(),
        version: "1.0".into(),
        source: String::new(),
        build_type: "custom".into(),
        build: vec![],
        install: vec![],
        dependencies: deps,
        links: None,
        arch: "native".into(),
        components: None,
        services: None,
        binaries: None,
        sha256: None,
    }
}

fn meta(name: &str, deps: &[&str]) -> PackageMetadata {
    PackageMetadata {
        pkg_name: name.into(),
        version: "1.0".into(),
        license: "MIT".into(),
        source: String::new(),
        arch: "native".into(),
        checksum: Checksum { kind: "sha256".into(), value: "00".into() },
        dependencies: deps
            .iter()
            .map(|d| Dependency { name: d.to_string(), dep_type: "Manifest".into(), libraries: None })
            .collect(),
        files: vec![],
        provides: None,
        conflicts: None,
        components: vec![],
        services: vec![],
        binaries: vec![],
        provenance: None,
    }
}

#[test]
fn build_log_dependencies() {
    let log = "Found libfoo\nchecking for zlib... yes\npkg-config --cflags --libs openssl\nPackage libpng was not found\nplain line\n";
    let found = cdd(log);
    assert_eq!(
        found,
        vec![
            ("libfoo".to_string(), "Build".to_string()),
            ("zlib".to_string(), "Build".to_string()),
            ("openssl".to_string(), "Build".to_string()),
            ("libpng".to_string(), "Build".to_string()),
        ]
    );
}

#[test]
fn build_log_checking_for_names_the_dependency() {
    assert_eq!(cdd("checking for foo..."), vec![("foo".to_string(), "Build".to_string())]);
    assert!(cdd("checking for").is_empty());
}

#[test]
fn build_log_ignores_noise_words() {
    assert!(cdd("Found yes\nFound module\n").is_empty());
    assert_eq!(cdd("Found 'libx';"), vec![("libx".to_string(), "Build".to_string())]);
}

#[test]
fn library_name_variants() {
    let v = normalize("libz.so.1");
    assert_eq!(v, vec!["libz", "libz.so", "libz.so.1", "z.so.1"]);
    assert_eq!(normalize("foo"), vec!["foo"]);
}

#[test]
fn library_index_records_lookup_names() {
    let idx = mltp(&vec![
        ("zlib".to_string(), "libz.so.1".to_string()),
        ("zlib".to_string(), "README".to_string()),
        ("zlib2".to_string(), "libz.so".to_string()),
    ]);
    assert_eq!(idx.providers(&"libz.so".to_string()), vec!["zlib", "zlib2"]);
    assert_eq!(idx.providers(&"libz".to_string()), vec!["zlib", "zlib2"]);
    assert!(idx.providers(&"README".to_string()).is_empty());
}

#[test]
fn transitive_closure_skips_current() {
    let g = vec![
        ("a".to_string(), vec!["b".to_string()]),
        ("b".to_string(), vec!["c".to_string(), "CUR".to_string()]),
        ("c".to_string(), vec!["a".to_string()]),
        ("x".to_string(), vec!["y".to_string()]),
    ];
    let r = transitive(&g, "cur", &vec!["a".to_string()]);
    for n in ["a", "b", "c"] {
        assert!(r.contains(&n.to_string()), "{} must be reached", n);
    }
    assert!(!r.contains(&"CUR".to_string()));
    assert!(!r.contains(&"y".to_string()));
}

#[test]
fn index_graph_from_metadata() {
    let g = loadex(&vec![meta("zlib", &["libc"]), meta("libc", &[])]);
    assert_eq!(g.len(), 2);
    assert_eq!(g[0].0, "zlib");
    assert_eq!(g[0].1, vec!["libc"]);
    assert!(g[1].1.is_empty());
}

fn scan_inputs() -> (Package, Vec<(String, String)>, Vec<String>, Vec<(String, Vec<String>)>) {
    let pkg = package(
        "app",
        Some(vec![
            DependencyEntry::Simple("zlib".into()),
            DependencyEntry::Versioned { name: "APP".into(), version: "1".into() },
        ]),
    );
    let source_deps = vec![("glib-2.0".to_string(), "Build (pkg-config)".to_string())];
    let libs = vec!["libz.so.1".to_string(), "libmissing.so".to_string()];
    let graph = loadex(&vec![meta("zlib", &["libc"]), meta("libc", &["app"])]);
    (pkg, source_deps, libs, graph)
}

#[test]
fn scan_merges_all_sources() {
    let (pkg, source_deps, libs, graph) = scan_inputs();
    let index = mltp(&vec![
        ("zlib".to_string(), "libz.so.1".to_string()),
        ("app".to_string(), "libz.so.1".to_string()),
    ]);
    let deps = scan(&pkg, &source_deps, "Found libpng\n", &libs, &index, &graph, false)
        .ok()
        .unwrap();
    let names: Vec<&str> = deps.iter().map(|d| d.name.as_str()).collect();
    assert_eq!(names, vec!["glib-2.0", "libc", "libmissing.so", "libpng", "zlib"]);
    let types: Vec<&str> = deps.iter().map(|d| d.dep_type.as_str()).collect();
    assert_eq!(
        types,
        vec![
            "Build (pkg-config)",
            "Transitive",
            "Library",
            "Build",
            "Library (libz.so.1) & Manifest",
        ]
    );
    assert!(deps.iter().all(|d| !d.name.eq_ignore_ascii_case("app")));
    // One library, found under several lookup names, lists no libraries.
    assert_eq!(deps[4].libraries, None);
}

#[test]
fn scan_strict_reports_unresolved() {
    let (pkg, source_deps, libs, graph) = scan_inputs();
    let index = mltp(&vec![("zlib".to_string(), "libz.so.1".to_string())]);
    let err = scan(&pkg, &source_deps, "", &libs, &index, &graph, true).err().unwrap();
    assert_eq!(err.names, vec!["libmissing.so"]);
    assert_eq!(
        err.message(),
        "Strict mode: libraries could not be resolved to packages: libmissing.so"
    );
}

#[test]
fn scan_lists_libraries_when_two_or_more() {
    let pkg = package("app", None);
    let libs = vec!["libz.so.1".to_string(), "libz.so".to_string()];
    let index = mltp(&vec![("zlib".to_string(), "libz.so.1".to_string())]);
    let deps = scan(&pkg, &vec![], "", &libs, &index, &vec![], false).ok().unwrap();
    assert_eq!(deps.len(), 1);
    assert_eq!(deps[0].name, "zlib");
    assert_eq!(deps[0].dep_type, "Library (libz.so) & Library (libz.so.1)");
    assert_eq!(deps[0].libraries, Some(vec!["libz.so".to_string(), "libz.so.1".to_string()]));
}

#[test]
fn candidate_from_given_captures() {
    // The group of the first match names the dependency, whatever the line says after it.
    let caps = vec![vec![Some("pkg-config --libs zlib".to_string()), Some("zlib".to_string())]];
    assert_eq!(candidate_from("pkg-config --cflags --libs other", &caps), "zlib");
    // No match on a pkg-config line: nothing.
    assert_eq!(candidate_from("pkg-config --libs zlib", &Vec::new()), "");
    // A dependency line without a match falls back to the word after `dependency`.
    assert_eq!(candidate_from("Run-time dependency glib found: NO", &Vec::new()), "glib");
    let caps = vec![vec![Some("dependency glib found: YES".to_string()), Some("YES".to_string())]];
    assert_eq!(candidate_from("Run-time dependency glib found: YES", &caps), "YES");
    // Lines that need no pattern ignore the captures.
    assert_eq!(candidate_from("checking for foo...", &Vec::new()), "foo...");
    assert_eq!(candidate_from("Found OpenSSL: /usr/lib", &Vec::new()), "OpenSSL:");
    assert_eq!(candidate_from("nothing here", &caps), "");
}
