use ous::model::Checksum;
use ous::pipeline::{
    archive_path, auto_build, auto_install, build_command_action, build_command_marker,
    check_download, checked_identity, complete_stage, fetch_plan, force_rebuild, hash_type,
    compute_hash_step, install_environment, is_skip_command, link_location, run_build_step, local_source_path, reuse_archive, rust_flags, select_checksum,
    stage_action, start_fresh, without_special_bits, work_subdir, workspace_override, AutoBuild,
    AutoInstall, BuildProgress, CommandAction, DownloadError, FetchPlan, LinkError, ProcessError,
    Stage, StageAction,
};

#[test]
fn test_force_strips_tail_steps() {
    let mut state = BuildProgress::default();
    for step in ["fetch", "build", "install", "hash", "metadata", "archive"] {
        state.completed_steps.insert(step.to_string());
    }
    for step in ["archive", "hash", "metadata"] {
        state.completed_steps.remove(step);
    }
    assert!(state.completed_steps.contains("fetch"));
    assert!(state.completed_steps.contains("build"));
    assert!(state.completed_steps.contains("install"));
    assert!(!state.completed_steps.contains("hash"));
    assert!(!state.completed_steps.contains("metadata"));
    assert!(!state.completed_steps.contains("archive"));
}

#[test]
fn test_build_marker_keyed_by_command_hash() {
    let a = build_command_marker(2, "make -j8");
    let b = build_command_marker(2, "make -j16");
    assert_ne!(a, b, "different commands must map to different markers");
    let c = build_command_marker(2, "make -j8");
    assert_eq!(a, c);
}

#[test]
fn build_marker_shape() {
    let m = build_command_marker(0, "abc");
    // The first 16 bytes of SHA-256("abc"), in hex.
    assert_eq!(m, "cmd-1-ba7816bf8f01cfea414140de5dae2223.done");
    assert!(build_command_marker(9, "x").starts_with("cmd-10-"));
}

#[test]
fn completed_stage_is_skipped_and_force_reruns_tail() {
    let mut st = BuildProgress::default();
    for s in [Stage::Fetch, Stage::Build, Stage::Install, Stage::Hash, Stage::Metadata, Stage::Archive] {
        assert!(matches!(stage_action(&st, &s, true), StageAction::Run));
        complete_stage(&mut st, &s);
        assert!(matches!(stage_action(&st, &s, true), StageAction::Skip));
        assert!(matches!(stage_action(&st, &s, false), StageAction::Redo));
    }
    force_rebuild(&mut st);
    assert!(matches!(stage_action(&st, &Stage::Hash, true), StageAction::Run));
    assert!(matches!(stage_action(&st, &Stage::Metadata, true), StageAction::Run));
    assert!(matches!(stage_action(&st, &Stage::Archive, true), StageAction::Run));
    assert!(matches!(stage_action(&st, &Stage::Fetch, true), StageAction::Skip));
    assert!(matches!(stage_action(&st, &Stage::Install, true), StageAction::Skip));
}

#[test]
fn step_set_insert_reports_novelty() {
    let mut st = BuildProgress::default();
    assert!(st.completed_steps.insert("fetch".to_string()));
    assert!(!st.completed_steps.insert("fetch".to_string()));
    assert!(st.completed_steps.remove("fetch"));
    assert!(!st.completed_steps.remove("fetch"));
}

#[test]
fn identity_checks() {
    assert_eq!(checked_identity("hello", "1.0", "amd64").ok().unwrap(), "x86_64");
    assert!(matches!(checked_identity("hello", "1.0", "sparc"), Err(ProcessError::Arch(_))));
    match checked_identity("../x", "1.0", "native") {
        Err(ProcessError::Component(e)) => assert_eq!(e.label, "package name"),
        _ => panic!("bad name must be refused"),
    }
    match checked_identity("x", "a/b", "native") {
        Err(ProcessError::Component(e)) => assert_eq!(e.label, "package version"),
        _ => panic!("bad version must be refused"),
    }
}

#[test]
fn paths_and_flags() {
    assert_eq!(archive_path("/out", "hello", "1.0"), "/out/hello-1.0.xcs");
    assert_eq!(work_subdir("hello", "native"), ".ous/hello");
    assert_eq!(work_subdir("hello", ""), ".ous/hello");
    assert_eq!(work_subdir("hello", "aarch64"), ".ous/hello/aarch64");
    assert!(reuse_archive(true, false, false));
    assert!(!reuse_archive(true, true, false));
    assert!(!reuse_archive(false, false, false));
    assert!(start_fresh(true, true));
    assert!(start_fresh(false, false));
    assert!(!start_fresh(false, true));
    assert_eq!(workspace_override(Some("  ")), None);
    assert_eq!(workspace_override(Some("/w")), Some("/w".to_string()));
    assert_eq!(workspace_override(None), None);
    assert!(rust_flags("aarch64-unknown-linux-musl").contains("target-cpu=armv8-a"));
    assert!(rust_flags("x86_64-unknown-linux-musl").contains("target-cpu=x86-64-v3"));
}

#[test]
fn build_and_install_choices() {
    assert!(matches!(auto_build(true, false, "rust"), AutoBuild::Commands));
    assert!(matches!(auto_build(false, true, "rust"), AutoBuild::Nothing));
    assert!(matches!(auto_build(false, false, "rust"), AutoBuild::Cargo));
    assert!(matches!(auto_build(false, false, "make"), AutoBuild::Nothing));
    assert!(matches!(auto_install(false, false, "rust"), AutoInstall::CargoBinaries));
    assert!(matches!(auto_install(false, true, "rust"), AutoInstall::LinksOnly));
    assert!(matches!(auto_install(true, true, "rust"), AutoInstall::Commands));
}

#[test]
fn skip_and_resume_commands() {
    assert!(is_skip_command("  NONE "));
    assert!(is_skip_command("skip"));
    assert!(!is_skip_command("make"));
    assert!(matches!(build_command_action("nothing", true, true), CommandAction::Skip));
    assert!(matches!(build_command_action("make", true, true), CommandAction::Resume));
    match build_command_action("  make all ", false, true) {
        CommandAction::Run(c) => assert_eq!(c, "make all"),
        _ => panic!("command must run"),
    }
}

#[test]
fn fetch_plans() {
    assert_eq!(local_source_path("file:///tmp/x"), "/tmp/x");
    assert!(matches!(fetch_plan("file:///src", true, true), FetchPlan::CopyDir(p) if p == "/src"));
    assert!(matches!(fetch_plan("/a.tar.gz", true, false), FetchPlan::CopyFile(p) if p == "/a.tar.gz"));
    assert!(matches!(fetch_plan("https://h/r.git", false, false), FetchPlan::GitClone(u) if u == "https://h/r.git"));
    match fetch_plan("https://h/a.tar.xz", false, false) {
        FetchPlan::Download { archive, tar_flag } => {
            assert_eq!(archive, "temp_archive.tar.xz");
            assert_eq!(tar_flag, "-xJf");
        }
        _ => panic!("download expected"),
    }
    match fetch_plan("https://h/a.tar.bz2", false, false) {
        FetchPlan::Download { tar_flag, .. } => assert_eq!(tar_flag, "-xjf"),
        _ => panic!("download expected"),
    }
    match fetch_plan("https://h/a.tgz", false, false) {
        FetchPlan::Download { archive, tar_flag } => {
            assert_eq!(archive, "temp_archive.tar.gz");
            assert_eq!(tar_flag, "-xzf");
        }
        _ => panic!("download expected"),
    }
}

fn sums() -> Vec<Checksum> {
    vec![
        Checksum { kind: "md5".to_string(), value: "m".to_string() },
        Checksum { kind: "sha256".to_string(), value: "abcdef".to_string() },
    ]
}

#[test]
fn download_checks() {
    assert!(check_download(None, &vec![]).is_ok());
    assert!(check_download(Some("ABCDEF"), &sums()).is_ok());
    match check_download(Some("00"), &sums()) {
        Err(DownloadError::Mismatch { expected, actual }) => {
            assert_eq!(expected, "00");
            assert_eq!(actual, "abcdef");
        }
        _ => panic!("mismatch expected"),
    }
    assert!(matches!(check_download(Some("00"), &vec![]), Err(DownloadError::NoSha256)));
}

#[test]
fn special_bits() {
    assert_eq!(without_special_bits(0o4755), Some(0o755));
    assert_eq!(without_special_bits(0o644), None);
}

#[test]
fn link_locations() {
    assert!(matches!(link_location("../../etc/cron.d/evil", "/tmp/root"), Err(LinkError::Escapes)));
    assert_eq!(link_location("system/share/link", "/tmp/root").ok().unwrap(), "system/share/link");
    assert_eq!(link_location("//usr/bin/x", "/tmp/root").ok().unwrap(), "usr/bin/x");
    assert!(matches!(link_location("/", "/tmp/root"), Err(LinkError::Invalid)));
    assert!(matches!(link_location("a/b/", "/tmp/root"), Err(LinkError::Invalid)));
}

#[test]
fn hash_types_and_selection() {
    assert_eq!(hash_type(None).ok().unwrap(), "sha256");
    assert_eq!(hash_type(Some("SHA1")).ok().unwrap(), "sha1");
    assert_eq!(hash_type(Some("crc")).err().unwrap().value, "crc");
    let c = select_checksum(&sums(), "sha256").unwrap();
    assert_eq!(c.value, "abcdef");
    let c = select_checksum(&sums(), "sha1").unwrap();
    assert_eq!(c.kind, "md5");
    assert!(select_checksum(&vec![], "sha256").is_none());
}

#[test]
fn build_step_records_success_only() {
    let mut st = BuildProgress::default();
    let r = run_build_step(&mut st, Err("exit 3".to_string()));
    assert_eq!(r, Err("Build step failed: exit 3".to_string()));
    assert!(!st.completed_steps.contains("build"));
    let r = run_build_step(&mut st, Ok("log".to_string()));
    assert_eq!(r, Ok("log".to_string()));
    assert!(st.completed_steps.contains("build"));
}

#[test]
fn hash_step_records_success_only() {
    let mut st = BuildProgress::default();
    let r = compute_hash_step(&mut st, Err("gone".to_string()));
    assert_eq!(r.err(), Some("Hashing step failed: gone".to_string()));
    assert!(!st.completed_steps.contains("hash"));
    let r = compute_hash_step(&mut st, Ok(sums())).ok().unwrap();
    assert_eq!(r.len(), 2);
    assert!(st.completed_steps.contains("hash"));
}

#[test]
fn test_symlink_escape_rejected() {
    // Traversal via ".." is refused before anything is created.
    assert!(link_location("../../etc/cron.d/evil", "/tmp/symlink-root").is_err());
    // A plain valid link is placed below the staging root.
    assert_eq!(
        link_location("system/share/link", "/tmp/symlink-root").ok().unwrap(),
        "system/share/link"
    );
}

#[test]
fn install_commands_get_destination_and_prefix() {
    let env = install_environment("/work/hello/pkg");
    assert_eq!(
        env,
        vec![
            ("CUDANE_DEST".to_string(), "/work/hello/pkg".to_string()),
            ("CUDANE_PREFIX".to_string(), "system".to_string()),
        ]
    );
}

#[test]
fn resumed_run_records_only_successes_before_failure() {
    let mut st = BuildProgress::default();
    st.completed_steps.insert("fetch".to_string());
    st.completed_steps.insert("build".to_string());
    let stages = [Stage::Fetch, Stage::Build, Stage::Install, Stage::Hash, Stage::Metadata, Stage::Archive];
    let succeeds = [true, true, true, false, true, true];
    let mut ran = Vec::new();
    for (i, s) in stages.iter().enumerate() {
        match stage_action(&st, s, true) {
            StageAction::Skip => continue,
            _ => {
                ran.push(i);
                if !succeeds[i] {
                    break;
                }
                complete_stage(&mut st, s);
            }
        }
    }
    assert_eq!(ran, vec![2, 3]);
    let mut recorded = st.completed_steps.items.clone();
    recorded.sort();
    assert_eq!(recorded, vec!["build", "fetch", "install"]);
}

#[test]
fn second_build_run_resumes_commands_the_first_completed() {
    let cmds = ["touch resume-probe", "none", "exit 3", "make install"];
    let succeeds = [true, true, false, true];
    let mut markers: Vec<usize> = Vec::new();
    for (i, cmd) in cmds.iter().enumerate() {
        match build_command_action(cmd, true, markers.contains(&i)) {
            CommandAction::Run(_) => {
                if !succeeds[i] {
                    break;
                }
                markers.push(i);
            }
            _ => {}
        }
    }
    assert_eq!(markers, vec![0]);
    let actions: Vec<&'static str> = cmds
        .iter()
        .enumerate()
        .map(|(i, cmd)| match build_command_action(cmd, true, markers.contains(&i)) {
            CommandAction::Skip => "skip",
            CommandAction::Resume => "resume",
            CommandAction::Run(_) => "run",
        })
        .collect();
    assert_eq!(actions, vec!["resume", "skip", "run", "run"]);
}
