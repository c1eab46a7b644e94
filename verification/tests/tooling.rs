use ous::cli::{preprocess_argv, resolve_repo_arch, value_flag_arity, zstd_level};
use ous::config::{config_env_defaults, default_target_arch, Config};
use ous::license::{is_license_file, license, license_from, license_from_captures};
use ous::plugin::{
    all_hooks, alias_result, escaped_quotes, hook_result, syntax_check_script, PluginManager,
    PluginResult, PythonPlugin,
};
use ous::ui::{EventBus, UserInterface};

fn argv(v: &[&str]) -> Vec<String> {
    v.iter().map(|s| s.to_string()).collect()
}

#[test]
fn flag_arities() {
    assert_eq!(value_flag_arity("-a"), Some(2));
    assert_eq!(value_flag_arity("--write"), Some(2));
    assert_eq!(value_flag_arity("--checksum"), Some(1));
    assert_eq!(value_flag_arity("--key"), Some(1));
    assert_eq!(value_flag_arity("--force"), None);
    assert_eq!(value_flag_arity("-q"), None);
}

#[test]
fn repository_modifiers_are_hoisted() {
    let lead = preprocess_argv(&argv(&["--base-url", "X", "--checksum", "idx", "dir"]));
    let trail = preprocess_argv(&argv(&["--checksum", "idx", "dir", "--base-url", "X"]));
    assert_eq!(lead, trail);
    assert_eq!(lead, argv(&["--base-url", "X", "--checksum", "idx", "dir"]));
    let r = preprocess_argv(&argv(&["-a", "src", "out", "--arch", "x86_64", "-f"]));
    assert_eq!(r, argv(&["--arch", "x86_64", "-a", "src", "out", "-f"]));
    // A flag at the end takes what values remain.
    assert_eq!(preprocess_argv(&argv(&["m.json", "--key"])), argv(&["--key", "m.json"]));
    assert_eq!(preprocess_argv(&argv(&["-", "x"])), argv(&["-", "x"]));
}

#[test]
fn repo_arch_resolution() {
    assert_eq!(resolve_repo_arch(Some("amd64"), Some("aarch64")).ok().unwrap(), "x86_64");
    assert_eq!(resolve_repo_arch(None, Some("arm64")).ok().unwrap(), "aarch64");
    assert_eq!(resolve_repo_arch(None, None).ok().unwrap(), "native");
    assert!(resolve_repo_arch(Some("mips"), None).is_err());
}

#[test]
fn zstd_levels() {
    assert_eq!(zstd_level(None), (3, false));
    assert_eq!(zstd_level(Some(" 19 ")), (19, false));
    assert_eq!(zstd_level(Some("0")), (1, false));
    assert_eq!(zstd_level(Some("23")), (22, false));
    assert_eq!(zstd_level(Some("30")), (22, false));
    assert_eq!(zstd_level(Some("fast")), (3, true));
}

#[test]
fn default_config_sets_no_variables() {
    assert!(config_env_defaults(&Config::default()).is_empty());
}

#[test]
fn config_overrides_become_variables() {
    let mut c = Config::default();
    c.general.quiet = true;
    c.build.zstd_level = 19;
    c.build.jobs = 8;
    c.build.hash_type = "md5".to_string();
    c.build.target_arch = default_target_arch();
    let env = config_env_defaults(&c);
    let pairs: Vec<(&str, &str)> = env.iter().map(|(k, v)| (k.as_str(), v.as_str())).collect();
    assert_eq!(
        pairs,
        vec![
            ("OUS_QUIET", "1"),
            ("OUS_ZSTD_LEVEL", "19"),
            ("OUS_JOBS", "8"),
            ("OUS_HASH_TYPE", "md5"),
        ]
    );
}

#[test]
fn license_texts() {
    assert_eq!(license_from("MIT License\n\nCopyright (c) 2024"), Some("MIT".to_string()));
    assert_eq!(
        license_from("GNU GENERAL PUBLIC LICENSE\n Version 3, 29 June 2007"),
        Some("GNU General Public License v3".to_string())
    );
    assert_eq!(
        license_from("gnu general public license v3"),
        Some("GNU General Public License v3".to_string())
    );
    assert_eq!(
        license_from("Mozilla Public License Version 2.0"),
        Some("Mozilla Public License v2.0".to_string())
    );
    assert_eq!(license_from("Apache License, Version 2.0"), Some("Apache".to_string()));
    assert_eq!(license_from("BSD 3-Clause License"), Some("BSD 3-Clause".to_string()));
    assert_eq!(license_from("\n  ** Custom Terms **\n"), Some("Custom Terms".to_string()));
    assert_eq!(license_from("   \n\n"), None);
}

#[test]
fn license_of_source_tree() {
    let files = vec![
        ("README".to_string(), Some("MIT".to_string())),
        ("COPYING".to_string(), None),
        ("LICENSE".to_string(), Some("ISC License".to_string())),
    ];
    assert_eq!(license(&files), "ISC");
    assert_eq!(license(&vec![]), "Unknown");
    assert!(is_license_file("license.txt"));
    assert!(is_license_file("MIT-LICENSE"));
    assert!(!is_license_file("README.md"));
}

#[test]
fn plugin_names_and_scripts() {
    let p = PythonPlugin::from_path("/plugins/hello.py");
    assert_eq!(p.name(), "hello");
    assert_eq!(p.path(), "/plugins/hello.py");
    let q = p.with_name("greeter".to_string());
    assert_eq!(q.name(), "greeter");
    assert_eq!(escaped_quotes("it's"), "it\\'s");
    assert_eq!(
        syntax_check_script("/p/a'b.py"),
        "compile(open('/p/a\\'b.py').read(), '/p/a\\'b.py', 'exec')"
    );
    assert_eq!(
        q.hook_script("{}"),
        "import json, sys; MCX_EVENT = json.loads('{}'); exec(open('/plugins/hello.py').read())"
    );
    let e = q.alias_command("missing").err().unwrap();
    assert_eq!(e.alias, "missing");
    assert_eq!(e.plugin, "greeter");
}

#[test]
fn plugin_results() {
    let r = alias_result(false, " out ", " err ");
    assert!(!r.success);
    assert_eq!(r.message, Some("err".to_string()));
    let r = alias_result(true, " out ", "");
    assert_eq!(r.message, Some("out".to_string()));
    let r = hook_result(None, " done \n");
    assert!(r.success);
    assert_eq!(r.message, Some("done".to_string()));
    let r = hook_result(Some(PluginResult { success: false, message: None }), "x");
    assert!(!r.success);
    assert_eq!(r.message, None);
}

#[test]
fn hook_names_are_distinct() {
    let names: Vec<&str> = all_hooks().iter().map(|h| h.as_str()).collect();
    assert_eq!(names.len(), 12);
    assert_eq!(names[0], "pre-fetch");
    assert_eq!(names[11], "post-archive");
    for i in 0..names.len() {
        for j in 0..i {
            assert_ne!(names[i], names[j]);
        }
    }
}

#[test]
fn ui_lines() {
    assert_eq!(UserInterface::info_line("hi"), " [○] :: hi");
    assert_eq!(UserInterface::error_line("hi"), " [x] :: hi");
    assert_eq!(UserInterface::success_line("hi"), " [√] :: hi");
    assert_eq!(UserInterface::warning_line("hi"), " [!] :: hi");
    assert_eq!(UserInterface::prompt_line("Go?"), "  ? Go? [y/N] ❯ ");
    assert!(UserInterface::is_affirmative(" YES "));
    assert!(UserInterface::is_affirmative("y"));
    assert!(!UserInterface::is_affirmative("no"));
}

#[test]
fn event_messages() {
    assert_eq!(EventBus::shutdown_message(), r#"{"data":null,"event":"shutdown"}"#);
    assert_eq!(
        EventBus::kv_message("log", "msg", "a\"b"),
        r#"{"data":{"msg":"a\"b"},"event":"log"}"#
    );
    assert_eq!(
        EventBus::service_message("sshd", "running", 42),
        r#"{"data":{"name":"sshd","pid":42,"state":"running"},"event":"service"}"#
    );
    assert_eq!(
        EventBus::boot_message(3, 1),
        r#"{"data":{"failed_services":1,"total_services":3},"event":"boot"}"#
    );
}

#[test]
fn plugin_manager_skips_loaded_files() {
    let mut m = PluginManager::new();
    assert!(m.register(PythonPlugin::from_path("/p/a.py")));
    assert!(m.register(PythonPlugin::from_path("/p/b.py").with_name("bee".to_string())));
    assert!(!m.register(PythonPlugin::from_path("/p//a.py")));
    assert_eq!(m.plugins.len(), 2);
    assert_eq!(m.find("bee"), Some(1));
    assert_eq!(m.find("a"), Some(0));
    assert_eq!(m.find("b"), None);
}

#[test]
fn affirmative_answers_ignore_case_and_spaces() {
    assert!(UserInterface::is_affirmative("y"));
    assert!(UserInterface::is_affirmative("  YES \n"));
    assert!(UserInterface::is_affirmative("Yes"));
    assert!(!UserInterface::is_affirmative("no"));
    assert!(!UserInterface::is_affirmative(""));
    assert!(!UserInterface::is_affirmative("yess"));
}

#[test]
fn license_from_given_captures() {
    let caps = vec![vec![
        Some("gnu general public license v3".to_string()),
        Some("gnu general public license".to_string()),
        Some("v3".to_string()),
    ]];
    assert_eq!(
        license_from_captures("gnu general public license v3", &caps),
        Some("GNU General Public License v3".to_string())
    );
    // Without a match, a short first line stands for the license.
    assert_eq!(
        license_from_captures("# Custom Terms\nmore text\n", &Vec::new()),
        Some("Custom Terms".to_string())
    );
    assert_eq!(license_from_captures("\n  \n", &Vec::new()), None);
}
