use ous::components::assign_components;
use ous::model::{ComponentSpec, Package};

fn package(components: Option<Vec<ComponentSpec>>) -> Package {
    Package {
        name: "t".into(),
        version: "1.0".into(),
        source: String::new(),
        build_type: "custom".into(),
        build: vec![],
        install: vec![],
        dependencies: None,
        links: None,
        arch: "native".into(),
        components,
        services: None,
        binaries: None,
        sha256: None,
    }
}

#[test]
fn test_assign_components_trailing_slash_and_overlap() {
    let pkg_files = vec![
        "system/bin/app".to_string(),
        "system/lib/liba.so".to_string(),
        "share/doc/readme".to_string(),
    ];
    let pkg = package(Some(vec![
        ComponentSpec {
            name: "runtime".into(),
            priority: "required".into(),
            files: vec!["system/".into(), "system/bin/app".into(), "".into()],
            description: String::new(),
        },
        ComponentSpec {
            name: "docs".into(),
            priority: "optional".into(),
            files: vec!["share/doc/".into()],
            description: String::new(),
        },
    ]));
    let comps = assign_components(&pkg_files, &pkg);
    let runtime = comps.iter().find(|c| c.name == "runtime").unwrap();
    let docs = comps.iter().find(|c| c.name == "docs").unwrap();
    assert!(runtime.files.contains(&"system/bin/app".to_string()));
    assert!(runtime.files.contains(&"system/lib/liba.so".to_string()));
    assert!(!docs.files.contains(&"system/bin/app".to_string()));
    assert!(docs.files.contains(&"share/doc/readme".to_string()));
}

#[test]
fn components_default_to_core() {
    let files = vec!["a".to_string(), "b/c".to_string()];
    let comps = assign_components(&files, &package(None));
    assert_eq!(comps.len(), 1);
    assert_eq!(comps[0].name, "core");
    assert_eq!(comps[0].priority, "required");
    assert_eq!(comps[0].files, files);
    assert_eq!(comps[0].description, "Core files for t");
}

#[test]
fn components_disjoint_and_cover_declared() {
    let files = vec![
        "x/1".to_string(),
        "x/2".to_string(),
        "y/1".to_string(),
        "z".to_string(),
    ];
    let pkg = package(Some(vec![
        ComponentSpec {
            name: "b".into(),
            priority: "optional".into(),
            files: vec!["x".into(), "y/1".into()],
            description: "B".into(),
        },
        ComponentSpec {
            name: "a".into(),
            priority: "required".into(),
            files: vec!["x/1".into(), "z".into()],
            description: "A".into(),
        },
    ]));
    let comps = assign_components(&files, &pkg);
    // Sorted by name.
    assert_eq!(comps.len(), 2);
    assert_eq!(comps[0].name, "a");
    assert_eq!(comps[1].name, "b");
    // The first declared component wins a file that two of them name.
    assert_eq!(comps[1].files, vec!["x/1".to_string(), "x/2".to_string(), "y/1".to_string()]);
    assert_eq!(comps[0].files, vec!["z".to_string()]);
    for f in &files {
        let owners = comps.iter().filter(|c| c.files.contains(f)).count();
        assert_eq!(owners, 1, "{} must have exactly one owner", f);
    }
}

#[test]
fn unclaimed_files_go_to_core_and_one_component_is_required() {
    let files = vec!["usr/share/x".to_string(), "bin/tool".to_string(), "etc/conf".to_string()];
    let pkg = package(Some(vec![ComponentSpec {
        name: "tools".into(),
        priority: "optional".into(),
        files: vec!["bin/".into()],
        description: "Tools".into(),
    }]));
    let comps = assign_components(&files, &pkg);
    assert_eq!(comps.len(), 2);
    assert_eq!(comps[0].name, "core");
    assert_eq!(comps[0].priority, "required");
    assert_eq!(comps[0].files, vec!["etc/conf".to_string(), "usr/share/x".to_string()]);
    assert_eq!(comps[0].description, "Core files for t");
    assert_eq!(comps[1].name, "tools");
    assert_eq!(comps[1].files, vec!["bin/tool".to_string()]);
    for f in &files {
        assert_eq!(comps.iter().filter(|c| c.files.contains(f)).count(), 1);
    }
}
